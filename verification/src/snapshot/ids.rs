//! Finding excerpts by their identifiers.

use std::cmp::Ordering;
use std::ops::Range;
use vstd::prelude::*;

use crate::buffer::{BufferId, BufferSnapshot, TextAnchor};
use crate::excerpt::{excerpts_text, Excerpt, ExcerptId};
use crate::locator::{
    digits_before, lemma_order_strict, lemma_order_total, lemma_order_transitive, Locator,
};
use crate::snapshot::{is_mapped, maps, valid_locator, ExcerptIdMapping, MultiBufferSnapshot};
use crate::text::{summarize, Bias, TextDimension};

verus! {

/// Whether the `k`-th entry belongs to the identifier `id`.
pub open spec fn entry_of(ids: Seq<ExcerptIdMapping>, k: int, id: ExcerptId) -> bool {
    0 <= k < ids.len() && ids[k].id == id
}

/// The place that belongs to an identifier: for one that was never handed out,
/// the place before all others.
pub open spec fn locator_of(ids: Seq<ExcerptIdMapping>, id: ExcerptId) -> Seq<u64> {
    if id.0 == usize::MAX {
        seq![u64::MAX]
    } else if exists|k: int| entry_of(ids, k, id) {
        ids[choose|k: int| entry_of(ids, k, id)].locator@
    } else {
        seq![0u64]
    }
}

/// The first excerpt from `from` on that stands at `locator` or behind it, or,
/// leaning to the right, behind it.
pub open spec fn locator_index(es: Seq<Excerpt>, locator: Seq<u64>, bias: Bias, from: int) -> int
    decreases es.len() - from,
{
    if from >= es.len() {
        es.len() as int
    } else if digits_before(locator, es[from].locator@) || (bias is Left && locator
        == es[from].locator@) {
        from
    } else {
        locator_index(es, locator, bias, from + 1)
    }
}

/// Where a search for a place ends.
pub proof fn lemma_locator_index(es: Seq<Excerpt>, locator: Seq<u64>, bias: Bias, from: int)
    requires
        0 <= from <= es.len(),
    ensures
        ({
            let i = locator_index(es, locator, bias, from);
            &&& from <= i <= es.len()
            &&& i < es.len() ==> digits_before(locator, es[i].locator@) || (bias is Left
                && locator == es[i].locator@)
            &&& forall|j: int|
                from <= j < i ==> !digits_before(locator, #[trigger] es[j].locator@)
            &&& bias is Left ==> forall|j: int|
                from <= j < i ==> locator != #[trigger] es[j].locator@
        }),
    decreases es.len() - from,
{
    if from < es.len() && !(digits_before(locator, es[from].locator@) || (bias is Left && locator
        == es[from].locator@)) {
        lemma_locator_index(es, locator, bias, from + 1);
    }
}

impl MultiBufferSnapshot {
    /// Whether an identifier was handed out, or stands for the start or the end.
    pub open spec fn knows_id(&self, id: ExcerptId) -> bool {
        ||| id.0 == 0
        ||| id.0 == usize::MAX
        ||| exists|k: int| entry_of(self.excerpt_ids@, k, id)
    }

    /// The place that belongs to an identifier.
    pub open spec fn locator_for(&self, id: ExcerptId) -> Seq<u64> {
        locator_of(self.excerpt_ids@, id)
    }

    /// The first excerpt at or behind the place of an identifier.
    pub open spec fn index_for(&self, id: ExcerptId) -> int {
        locator_index(self.excerpts@, self.locator_for(id), Bias::Left, 0)
    }

    /// Whether the excerpt with an identifier is still there.
    pub open spec fn has_excerpt(&self, id: ExcerptId) -> bool {
        0 <= self.index_for(id) < self.excerpts@.len() && self.excerpts@[self.index_for(id)].id
            == id
    }

    /// Whether `a` stands before `b`.
    pub open spec fn id_before(&self, a: ExcerptId, b: ExcerptId) -> bool {
        ||| digits_before(self.locator_for(a), self.locator_for(b))
        ||| self.locator_for(a) == self.locator_for(b) && a.0 < b.0
    }

    /// The place of an excerpt's identifier is the excerpt's, and a search for
    /// it finds the excerpt.
    pub proof fn lemma_excerpt_id(&self, i: int)
        requires
            self.wf(),
            0 <= i < self.excerpts@.len(),
        ensures
            self.locator_for(self.excerpts@[i].id) == self.excerpts@[i].locator@,
            self.index_for(self.excerpts@[i].id) == i,
            self.has_excerpt(self.excerpts@[i].id),
            self.knows_id(self.excerpts@[i].id),
            0 < self.excerpts@[i].id.0 < usize::MAX,
    {
        let ids = self.excerpt_ids@;
        let e = self.excerpts@[i];
        assert(is_mapped(ids, e));
        let k = choose|k: int| maps(ids, k, e);
        assert(entry_of(ids, k, e.id));
        let m = choose|m: int| entry_of(ids, m, e.id);
        if k < m {
            assert(ids[k].id.0 < ids[m].id.0);
        }
        if m < k {
            assert(ids[m].id.0 < ids[k].id.0);
        }
        self.lemma_index_at(i);
    }

    /// A search for the place of an excerpt finds the excerpt.
    pub proof fn lemma_index_at(&self, i: int)
        requires
            self.wf(),
            0 <= i < self.excerpts@.len(),
        ensures
            locator_index(self.excerpts@, self.excerpts@[i].locator@, Bias::Left, 0) == i,
            locator_index(self.excerpts@, self.excerpts@[i].locator@, Bias::Right, 0) == i + 1,
    {
        let es = self.excerpts@;
        let locator = es[i].locator@;
        lemma_locator_index(es, locator, Bias::Left, 0);
        lemma_locator_index(es, locator, Bias::Right, 0);
        let left = locator_index(es, locator, Bias::Left, 0);
        let right = locator_index(es, locator, Bias::Right, 0);
        if left < i {
            lemma_order_strict(es[left].locator@, locator);
        }
        if right < i {
            lemma_order_strict(es[right].locator@, locator);
        }
        if right == i {
            lemma_order_strict(locator, locator);
        }
        if i + 1 < right {
            assert(digits_before(locator, es[i + 1].locator@));
        }
    }

    /// Of all excerpts only the one that a search finds can have the identifier.
    pub proof fn lemma_excerpt_found(&self, id: ExcerptId, i: int)
        requires
            self.wf(),
            0 <= i < self.excerpts@.len(),
            self.excerpts@[i].id == id,
        ensures
            self.has_excerpt(id),
            self.index_for(id) == i,
    {
        self.lemma_excerpt_id(i);
    }

    /// Where a known identifier's place lies.
    pub proof fn lemma_locator_for(&self, id: ExcerptId)
        requires
            self.wf(),
        ensures
            id.0 == 0 ==> self.locator_for(id) == seq![0u64],
            id.0 == usize::MAX ==> self.locator_for(id) == seq![u64::MAX],
            0 < id.0 < usize::MAX && self.knows_id(id) ==> valid_locator(self.locator_for(id)),
            self.locator_for(id).len() > 0,
            0 <= self.index_for(id) <= self.excerpts@.len(),
            id.0 == 0 ==> self.index_for(id) == 0,
            id.0 == usize::MAX ==> self.index_for(id) == self.excerpts@.len(),
    {
        let es = self.excerpts@;
        lemma_locator_index(es, self.locator_for(id), Bias::Left, 0);
        let i = self.index_for(id);
        if id.0 == 0 && i > 0 {
            assert(valid_locator(es[0].locator@));
        }
        if id.0 == usize::MAX && i < es.len() {
            assert(valid_locator(es[i].locator@));
            lemma_order_strict(es[i].locator@, seq![u64::MAX]);
        }
    }

    /// The place of an identifier.
    pub fn excerpt_locator_for_id(&self, id: ExcerptId) -> (r: Locator)
        requires
            self.wf(),
            self.knows_id(id),
        ensures
            r@ == self.locator_for(id),
    {
        self.place_for_id(id)
    }

    /// The place of an identifier, also of one that was never handed out.
    pub(crate) fn place_for_id(&self, id: ExcerptId) -> (r: Locator)
        requires
            self.wf(),
        ensures
            r@ == self.locator_for(id),
    {
        if id.0 == usize::MAX {
            return Locator::max();
        }
        let mut k: usize = 0;
        while k < self.excerpt_ids.len()
            invariant
                k <= self.excerpt_ids@.len(),
                id.0 != usize::MAX,
                self.wf(),
                forall|m: int| 0 <= m < k ==> (#[trigger] self.excerpt_ids@[m]).id != id,
            decreases self.excerpt_ids@.len() - k,
        {
            if self.excerpt_ids[k].id == id {
                proof {
                    let ids = self.excerpt_ids@;
                    assert(entry_of(ids, k as int, id));
                    let m = choose|m: int| entry_of(ids, m, id);
                    if k < m {
                        assert(ids[k as int].id.0 < ids[m].id.0);
                    }
                }
                return self.excerpt_ids[k].locator.clone();
            }
            k = k + 1;
        }
        assert forall|m: int| !entry_of(self.excerpt_ids@, m, id) by {}
        Locator::min()
    }

    /// The first excerpt at or behind a place, or, leaning to the right, behind
    /// it.
    pub fn seek_locator(&self, locator: &Locator, bias: Bias) -> (r: usize)
        ensures
            r == locator_index(self.excerpts@, locator@, bias, 0),
            r <= self.excerpts@.len(),
    {
        let mut i: usize = 0;
        while i < self.excerpts.len()
            invariant
                i <= self.excerpts@.len(),
                locator_index(self.excerpts@, locator@, bias, 0) == locator_index(
                    self.excerpts@,
                    locator@,
                    bias,
                    i as int,
                ),
            decreases self.excerpts@.len() - i,
        {
            let place = &self.excerpts[i].locator;
            if locator.before(place) || (bias == Bias::Left && locator.equals(place)) {
                return i;
            }
            i = i + 1;
        }
        i
    }

    /// The first excerpt at or behind the place of an identifier.
    pub(crate) fn index_for_id(&self, id: ExcerptId) -> (r: usize)
        requires
            self.wf(),
        ensures
            r == self.index_for(id),
            r <= self.excerpts@.len(),
    {
        let locator = self.place_for_id(id);
        self.seek_locator(&locator, Bias::Left)
    }

    /// The excerpt with an identifier, where it is still there.
    pub fn excerpt(&self, excerpt_id: ExcerptId) -> (r: Option<&Excerpt>)
        requires
            self.wf(),
            self.knows_id(excerpt_id),
        ensures
            match r {
                Some(e) => self.has_excerpt(excerpt_id) && *e == self.excerpts@[self.index_for(
                    excerpt_id,
                )],
                None => !self.has_excerpt(excerpt_id) && forall|i: int|
                    0 <= i < self.excerpts@.len() ==> (#[trigger] self.excerpts@[i]).id
                        != excerpt_id,
            },
    {
        let i: usize = self.index_for_id(excerpt_id);
        if i < self.excerpts.len() && self.excerpts[i].id == excerpt_id {
            return Some(&self.excerpts[i]);
        }
        proof {
            assert forall|i: int| 0 <= i < self.excerpts@.len() implies (
            #[trigger] self.excerpts@[i]).id != excerpt_id by {
                if self.excerpts@[i].id == excerpt_id {
                    self.lemma_excerpt_found(excerpt_id, i);
                }
            }
        }
        None
    }

    pub fn buffer_id_for_excerpt(&self, excerpt_id: ExcerptId) -> (r: Option<BufferId>)
        requires
            self.wf(),
            self.knows_id(excerpt_id),
        ensures
            r == if self.has_excerpt(excerpt_id) {
                Some(self.excerpts@[self.index_for(excerpt_id)].buffer_id)
            } else {
                None
            },
    {
        match self.excerpt(excerpt_id) {
            Some(excerpt) => Some(excerpt.buffer_id),
            None => None,
        }
    }

    pub fn buffer_for_excerpt(&self, excerpt_id: ExcerptId) -> (r: Option<&BufferSnapshot>)
        requires
            self.wf(),
            self.knows_id(excerpt_id),
        ensures
            match r {
                Some(buffer) => self.has_excerpt(excerpt_id) && *buffer
                    == *self.excerpts@[self.index_for(excerpt_id)].buffer,
                None => !self.has_excerpt(excerpt_id),
            },
    {
        match self.excerpt(excerpt_id) {
            Some(excerpt) => Some(&excerpt.buffer),
            None => None,
        }
    }

    pub fn context_range_for_excerpt(&self, excerpt_id: ExcerptId) -> (r: Option<
        Range<TextAnchor>,
    >)
        requires
            self.wf(),
            self.knows_id(excerpt_id),
        ensures
            r == if self.has_excerpt(excerpt_id) {
                Some(self.excerpts@[self.index_for(excerpt_id)].range.context)
            } else {
                None
            },
    {
        match self.excerpt(excerpt_id) {
            Some(excerpt) => Some(excerpt.range.context.start..excerpt.range.context.end),
            None => None,
        }
    }

    /// Where an excerpt starts and ends in the text of the multibuffer.
    pub fn range_for_excerpt<T: TextDimension>(&self, excerpt_id: ExcerptId) -> (r: Option<
        Range<T>,
    >)
        requires
            self.wf(),
            self.knows_id(excerpt_id),
        ensures
            ({
                let es = self.excerpts@;
                let i = self.index_for(excerpt_id);
                match r {
                    Some(range) => {
                        &&& 0 <= i < es.len()
                        &&& es[i].locator@ == self.locator_for(excerpt_id)
                        &&& range.start.measures(summarize(excerpts_text(es.take(i))))
                        &&& range.end.measures(summarize(excerpts_text(es.take(i + 1))))
                    },
                    None => i == es.len() || es[i].locator@ != self.locator_for(excerpt_id),
                }
            }),
    {
        let locator = self.excerpt_locator_for_id(excerpt_id);
        let i: usize = self.seek_locator(&locator, Bias::Left);
        proof {
            self.lemma_locator_for(excerpt_id);
        }
        if i < self.excerpts.len() && self.excerpts[i].locator.equals(&locator) {
            let cursor = self.cursor_at(i);
            let end = self.cursor_end(&cursor);
            Some(T::from_text_summary(&cursor.start)..T::from_text_summary(&end))
        } else {
            None
        }
    }

    /// Whether `a` stands before `b`.
    pub(crate) fn is_id_before(&self, a: ExcerptId, b: ExcerptId) -> (r: bool)
        requires
            self.wf(),
        ensures
            r == self.id_before(a, b),
    {
        let a_locator = self.place_for_id(a);
        let b_locator = self.place_for_id(b);
        a_locator.before(&b_locator) || (a_locator.equals(&b_locator) && a.0 < b.0)
    }

    /// Identifiers are in one order.
    pub proof fn lemma_id_order(&self, a: ExcerptId, b: ExcerptId, c: ExcerptId)
        ensures
            self.id_before(a, b) ==> !self.id_before(b, a) && a != b,
            self.id_before(a, b) || self.id_before(b, a) || a == b,
            self.id_before(a, b) && self.id_before(b, c) ==> self.id_before(a, c),
    {
        let la = self.locator_for(a);
        let lb = self.locator_for(b);
        let lc = self.locator_for(c);
        lemma_order_total(la, lb);
        if digits_before(la, lb) {
            lemma_order_strict(la, lb);
            if digits_before(lb, lc) {
                lemma_order_transitive(la, lb, lc);
            }
        }
        if digits_before(lb, la) {
            lemma_order_strict(lb, la);
        }
    }
}

impl ExcerptId {
    /// The order in which the excerpts stand.
    pub fn cmp(&self, other: &Self, snapshot: &MultiBufferSnapshot) -> (r: Ordering)
        requires
            snapshot.wf(),
            snapshot.knows_id(*self),
            snapshot.knows_id(*other),
        ensures
            r == if snapshot.id_before(*self, *other) {
                Ordering::Less
            } else if *self == *other {
                Ordering::Equal
            } else {
                Ordering::Greater
            },
    {
        if snapshot.is_id_before(*self, *other) {
            Ordering::Less
        } else if self.0 == other.0 {
            Ordering::Equal
        } else {
            Ordering::Greater
        }
    }
}

} // verus!
