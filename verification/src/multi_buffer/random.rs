//! Changes that are drawn at random.

use std::ops::Range;
use std::sync::Arc;

use rand::rngs::StdRng;
use vstd::prelude::*;

use crate::buffer::{
    clipped_offset, lemma_boundary_left, lemma_boundary_right, BufferId, BufferSnapshot,
    Capability,
};
use crate::chance::{choose_id, choose_ids, choose_index, gen_bool, gen_range, gen_ratio};
use crate::excerpt::{ExcerptId, ExcerptRange};
use crate::multi_buffer::insert::showable;
use crate::multi_buffer::mutation::{has_id, is_unseen, lemma_known, lemma_unseen, Mutation};
use crate::multi_buffer::plan::EditPlan;
use crate::multi_buffer::removed::names_in_order;
use crate::multi_buffer::push_many::lemma_has_locator;
use crate::multi_buffer::room::{lemma_room_for_few, most_growth};
use crate::multi_buffer::sync::ids_of;
use crate::multi_buffer::{buffers_wf, digits_of, state_fits, BufferState, MultiBuffer};
use crate::position::ToOffset;
use crate::shared::share;
use crate::snapshot::MultiBufferSnapshot;
use crate::text::{is_boundary, Bias, MAX_TEXT_LEN};

verus! {

/// The identifiers in the order in which they first come, each once.
pub open spec fn without_repeats(ids: Seq<ExcerptId>) -> Seq<ExcerptId>
    decreases ids.len(),
{
    if ids.len() == 0 {
        seq![]
    } else {
        let front = without_repeats(ids.drop_last());
        if front.contains(ids.last()) {
            front
        } else {
            front.push(ids.last())
        }
    }
}

/// Leaving repeats out leaves each identifier once and adds none.
pub proof fn lemma_without_repeats(ids: Seq<ExcerptId>)
    ensures
        without_repeats(ids).no_duplicates(),
        without_repeats(ids).len() <= ids.len(),
        forall|id: ExcerptId| #[trigger] without_repeats(ids).contains(id) <==> ids.contains(id),
    decreases ids.len(),
{
    if ids.len() > 0 {
        let front = ids.drop_last();
        let kept = without_repeats(front);
        let all = without_repeats(ids);
        lemma_without_repeats(front);
        assert(ids[ids.len() - 1] == ids.last());
        assert forall|a: int, b: int|
            0 <= a < all.len() && 0 <= b < all.len() && a != b implies all[a] != all[b] by {
            if a == kept.len() {
                assert(kept.contains(kept[b]));
            }
            if b == kept.len() {
                assert(kept.contains(kept[a]));
            }
        }
        assert forall|id: ExcerptId| #[trigger] all.contains(id) <==> ids.contains(id) by {
            if all.contains(id) {
                let k = choose|k: int| 0 <= k < all.len() && all[k] == id;
                if k < kept.len() {
                    assert(kept[k] == id);
                    assert(kept.contains(id));
                    assert(front.contains(id));
                    let j = choose|j: int| 0 <= j < front.len() && front[j] == id;
                    assert(ids[j] == id);
                }
            }
            if ids.contains(id) {
                let j = choose|j: int| 0 <= j < ids.len() && ids[j] == id;
                if j < front.len() {
                    assert(front[j] == id);
                    assert(kept.contains(id));
                }
                if kept.contains(id) {
                    let k = choose|k: int| 0 <= k < kept.len() && kept[k] == id;
                    assert(all[k] == id);
                } else {
                    assert(all[kept.len() as int] == id);
                }
            }
        }
    }
}

/// Leaves out identifiers that came before.
pub fn drop_repeats(ids: &Vec<ExcerptId>) -> (r: Vec<ExcerptId>)
    ensures
        r@ == without_repeats(ids@),
{
    let mut kept: Vec<ExcerptId> = Vec::new();
    let mut k: usize = 0;
    assert(ids@.take(0) =~= seq![]);
    while k < ids.len()
        invariant
            k <= ids@.len(),
            kept@ == without_repeats(ids@.take(k as int)),
        decreases ids@.len() - k,
    {
        assert(ids@.take(k + 1).drop_last() =~= ids@.take(k as int));
        if !has_id(&kept, ids[k]) {
            kept.push(ids[k]);
        }
        k = k + 1;
    }
    assert(ids@.take(ids@.len() as int) =~= ids@);
    kept
}

/// Those of the identifiers that were chosen.
pub open spec fn chosen_of(ids: Seq<ExcerptId>, chosen: Seq<ExcerptId>) -> Seq<ExcerptId>
    decreases ids.len(),
{
    if ids.len() == 0 {
        seq![]
    } else {
        let front = chosen_of(ids.drop_last(), chosen);
        if chosen.contains(ids.last()) {
            front.push(ids.last())
        } else {
            front
        }
    }
}

/// An identifier that was chosen is among the chosen ones.
proof fn lemma_chosen_of(ids: Seq<ExcerptId>, chosen: Seq<ExcerptId>, id: ExcerptId)
    requires
        ids.contains(id),
        chosen.contains(id),
    ensures
        chosen_of(ids, chosen).contains(id),
    decreases ids.len(),
{
    let front = ids.drop_last();
    let all = chosen_of(ids, chosen);
    let j = choose|j: int| 0 <= j < ids.len() && ids[j] == id;
    if j < front.len() {
        assert(front[j] == id);
        lemma_chosen_of(front, chosen, id);
        let kept = chosen_of(front, chosen);
        let k = choose|k: int| 0 <= k < kept.len() && kept[k] == id;
        assert(all[k] == id);
    } else {
        assert(all[all.len() - 1] == id);
    }
}

/// The kinds of changes to which excerpts are shown.
#[derive(Clone, Copy, Debug, PartialEq, Eq, Structural)]
pub enum MutationKind {
    Clear,
    Expand,
    Insert,
    Remove,
}

/// The kind of a change to a multibuffer of so many excerpts, where it was drawn
/// whether to clear, whether to expand and whether to insert.
pub open spec fn kind_for(
    count: int,
    max_excerpts: int,
    clears: bool,
    expands: bool,
    inserts: bool,
) -> MutationKind {
    if clears {
        MutationKind::Clear
    } else if expands && count > 0 {
        MutationKind::Expand
    } else if count == 0 || (inserts && count < max_excerpts) {
        MutationKind::Insert
    } else {
        MutationKind::Remove
    }
}

/// Whether a range starts no later than it ends, and characters start at both ends.
pub open spec fn is_text_range(t: Seq<u8>, range: Range<usize>) -> bool {
    &&& range.start <= range.end <= t.len()
    &&& is_boundary(t, range.start as int)
    &&& is_boundary(t, range.end as int)
}

/// The range of a text between two offsets that were drawn, moved apart to where
/// characters start.
pub open spec fn range_between(t: Seq<u8>, drawn: Range<usize>) -> ExcerptRange<usize> {
    ExcerptRange {
        context: Range {
            start: clipped_offset(t, drawn.start as int, Bias::Left) as usize,
            end: clipped_offset(t, drawn.end as int, Bias::Right) as usize,
        },
        primary: None,
    }
}

/// The ranges of a buffer between offsets that were drawn.
pub fn ranges_between(buffer: &BufferSnapshot, drawn: &Vec<Range<usize>>) -> (r: Vec<
    ExcerptRange<usize>,
>)
    requires
        buffer.wf(),
    ensures
        r@.len() == drawn@.len(),
        forall|k: int|
            0 <= k < r@.len() ==> #[trigger] r@[k] == range_between(buffer.bytes(), drawn@[k]),
{
    let mut ranges: Vec<ExcerptRange<usize>> = Vec::new();
    let mut k: usize = 0;
    while k < drawn.len()
        invariant
            buffer.wf(),
            k <= drawn@.len(),
            ranges@.len() == k,
            forall|j: int|
                0 <= j < k ==> #[trigger] ranges@[j] == range_between(buffer.bytes(), drawn@[j]),
        decreases drawn@.len() - k,
    {
        let start: usize = buffer.clip_offset(drawn[k].start, Bias::Left);
        let end: usize = buffer.clip_offset(drawn[k].end, Bias::Right);
        ranges.push(ExcerptRange { context: start..end, primary: None });
        k = k + 1;
    }
    ranges
}

/// Draws up to four ranges of a buffer.
fn random_ranges(rng: &mut StdRng, buffer: &BufferSnapshot) -> (r: Vec<ExcerptRange<usize>>)
    requires
        buffer.wf(),
    ensures
        r@.len() < 5,
        forall|k: int|
            0 <= k < r@.len() ==> is_text_range(buffer.bytes(), (#[trigger] r@[k]).context)
                && r@[k].primary is None,
{
    let ghost t = buffer.bytes();
    let count: usize = gen_range(rng, 0, 4);
    let mut drawn: Vec<Range<usize>> = Vec::new();
    while drawn.len() < count
        invariant
            buffer.wf(),
            t == buffer.bytes(),
            drawn@.len() <= count <= 4,
            forall|j: int|
                0 <= j < drawn@.len() ==> (#[trigger] drawn@[j]).end <= t.len()
                    && drawn@[j].start <= clipped_offset(t, drawn@[j].end as int, Bias::Right),
        decreases count - drawn@.len(),
    {
        let end: usize = gen_range(rng, 0, buffer.len());
        let start: usize = gen_range(rng, 0, buffer.clip_offset(end, Bias::Right));
        drawn.push(start..end);
    }
    let ranges = ranges_between(buffer, &drawn);
    proof {
        assert forall|k: int| 0 <= k < ranges@.len() implies is_text_range(
            t,
            (#[trigger] ranges@[k]).context,
        ) && ranges@[k].primary is None by {
            assert(drawn@[k].end <= t.len());
            lemma_boundary_right(t, drawn@[k].end as int);
            lemma_boundary_left(t, drawn@[k].start as int);
        }
    }
    ranges
}

impl MultiBufferSnapshot {
    /// Draws a range of the text, from an offset on.
    pub fn random_byte_range(&self, start_offset: usize, rng: &mut StdRng) -> (r: Range<usize>)
        requires
            self.wf(),
            start_offset <= self.bytes().len(),
        ensures
            start_offset <= r.start,
            is_text_range(self.bytes(), r),
    {
        let drawn_end: usize = gen_range(rng, start_offset, self.len());
        let end: usize = self.clip_offset(drawn_end, Bias::Right);
        proof {
            lemma_boundary_right(self.bytes(), drawn_end as int);
        }
        let drawn_start: usize = gen_range(rng, start_offset, end);
        let start: usize = self.clip_offset(drawn_start, Bias::Right);
        proof {
            lemma_boundary_right(self.bytes(), drawn_start as int);
        }
        start..end
    }
}

/// A range of an edit, the smaller offset first.
pub open spec fn ordered(range: Range<usize>) -> Range<usize> {
    if range.start <= range.end {
        range
    } else {
        Range { start: range.end, end: range.start }
    }
}

/// Whether edits can have been drawn for a text: at most so many, each behind the
/// one before, and fewer only where the last one reaches the end of the text. Their
/// texts are given.
pub open spec fn can_be_drawn(
    t: Seq<u8>,
    edits: Seq<(Range<usize>, String)>,
    edit_count: int,
    new_texts: Seq<String>,
) -> bool {
    &&& edits.len() <= edit_count
    &&& forall|k: int|
        0 <= k < edits.len() ==> is_text_range(t, ordered((#[trigger] edits[k]).0))
            && edits[k].1 == new_texts[k]
    &&& forall|k: int|
        0 < k < edits.len() ==> ordered(edits[k - 1].0).end < ordered(
            (#[trigger] edits[k]).0,
        ).start
    &&& edits.len() < edit_count ==> edits.len() > 0 && ordered(edits.last().0).end == t.len()
}

/// A change that has been drawn.
#[derive(Debug)]
pub enum RandomChange {
    /// A buffer is to change its text, or to undo or redo changes.
    Buffer { buffer_id: BufferId, edits: bool },
    /// The buffers are asked for edits.
    Edits(EditPlan),
    /// Excerpts were changed.
    Excerpts(Vec<Mutation>),
}

/// Whether a multibuffer goes through states, change by change.
pub open spec fn goes_through(
    trace: Seq<MultiBuffer>,
    mutations: Seq<Mutation>,
    max_excerpts: int,
    fresh: Seq<Arc<BufferSnapshot>>,
) -> bool {
    &&& trace.len() == mutations.len() + 1
    &&& forall|c: int| 0 <= c < trace.len() ==> (#[trigger] trace[c]).wf()
    &&& forall|c: int|
        0 <= c < mutations.len() ==> {
            &&& trace[c].can_come(#[trigger] mutations[c], max_excerpts, fresh[c])
            &&& trace[c].fits(mutations[c])
            &&& trace[c + 1].has_applied(&trace[c], mutations[c])
        }
}

/// Whether changes make `after` of `before`.
pub open spec fn is_made(
    before: MultiBuffer,
    after: MultiBuffer,
    mutations: Seq<Mutation>,
    max_excerpts: int,
    fresh: Seq<Arc<BufferSnapshot>>,
) -> bool {
    exists|trace: Seq<MultiBuffer>|
        {
            &&& #[trigger] goes_through(trace, mutations, max_excerpts, fresh)
            &&& trace[0] == before
            &&& trace.last() == after
        }
}

/// Whether counts and text stay within bounds whatever is drawn: each of so many
/// changes that can come fits, whichever came before.
pub open spec fn always_fits(
    before: MultiBuffer,
    mutation_count: int,
    max_excerpts: int,
    fresh: Seq<Arc<BufferSnapshot>>,
) -> bool {
    forall|after: MultiBuffer, made: Seq<Mutation>, mutation: Mutation| #[trigger]
        is_made(before, after, made, max_excerpts, fresh) && made.len() < mutation_count
            && #[trigger] after.can_come(mutation, max_excerpts, fresh[made.len() as int])
            ==> after.fits(mutation)
}

proof fn lemma_made_more(
    before: MultiBuffer,
    middle: MultiBuffer,
    after: MultiBuffer,
    mutations: Seq<Mutation>,
    mutation: Mutation,
    max_excerpts: int,
    fresh: Seq<Arc<BufferSnapshot>>,
)
    requires
        is_made(before, middle, mutations, max_excerpts, fresh),
        middle.can_come(mutation, max_excerpts, fresh[mutations.len() as int]),
        middle.fits(mutation),
        after.has_applied(&middle, mutation),
        after.wf(),
    ensures
        is_made(before, after, mutations.push(mutation), max_excerpts, fresh),
{
    let trace = choose|trace: Seq<MultiBuffer>|
        {
            &&& #[trigger] goes_through(trace, mutations, max_excerpts, fresh)
            &&& trace[0] == before
            &&& trace.last() == middle
        };
    let longer = trace.push(after);
    let more = mutations.push(mutation);
    assert forall|c: int| 0 <= c < more.len() implies {
        &&& longer[c].can_come(#[trigger] more[c], max_excerpts, fresh[c])
        &&& longer[c].fits(more[c])
        &&& longer[c + 1].has_applied(&longer[c], more[c])
    } by {
        if c < mutations.len() {
            assert(trace[c].can_come(mutations[c], max_excerpts, fresh[c]));
        }
    }
    assert forall|c: int| 0 <= c < longer.len() implies (#[trigger] longer[c]).wf() by {
        if c < trace.len() {
            assert(trace[c].wf());
        }
    }
    assert(goes_through(longer, more, max_excerpts, fresh));
}

/// What a change inserts is not what was kept for later.
proof fn lemma_other_buffer(
    buffer: MultiBuffer,
    mutation: Mutation,
    max_excerpts: int,
    fresh: Seq<Arc<BufferSnapshot>>,
    next: int,
    j: int,
)
    requires
        buffer.wf(),
        0 <= next < j < fresh.len(),
        buffer.can_come(mutation, max_excerpts, fresh[next]),
        is_unseen(buffer.snapshot.excerpts@, *fresh[j]),
        fresh[next].remote_id != fresh[j].remote_id,
    ensures
        mutation matches Mutation::Insert { buffer: inserted, ranges } ==> inserted.remote_id
            != fresh[j].remote_id,
{
    if let Mutation::Insert { buffer: inserted, ranges } = mutation {
        if inserted != fresh[next] {
            let es = buffer.snapshot.excerpts@;
            let states = buffer.buffers@;
            let s = choose|s: int|
                0 <= s < states.len() && (#[trigger] states[s]).buffer == inserted;
            reveal(buffers_wf);
            assert(state_fits(es, states[s]));
            assert(digits_of(states[s].excerpts@).len() > 0);
            let i = lemma_has_locator(es, inserted.remote_id);
            assert(es[i].buffer_id != fresh[j].remote_id);
        }
    }
}

/// Whether the contents of buffers that are new to a multibuffer can be shown.
pub open spec fn are_fresh(buffer: MultiBuffer, fresh: Seq<Arc<BufferSnapshot>>) -> bool {
    &&& forall|j: int|
        0 <= j < fresh.len() ==> (#[trigger] fresh[j]).wf() && is_unseen(
            buffer.snapshot.excerpts@,
            *fresh[j],
        )
    &&& forall|i: int, j: int|
        0 <= i < j < fresh.len() ==> (#[trigger] fresh[i]).remote_id != (
        #[trigger] fresh[j]).remote_id
}

impl MultiBuffer {
    /// Whether a change can be drawn.
    pub open spec fn can_come(
        &self,
        mutation: Mutation,
        max_excerpts: int,
        fresh: Arc<BufferSnapshot>,
    ) -> bool {
        let es = self.snapshot.excerpts@;
        match mutation {
            Mutation::Clear => true,
            Mutation::Expand { ids, line_count } => {
                &&& ids@.len() < es.len()
                &&& ids@.no_duplicates()
                &&& forall|k: int|
                    0 <= k < ids@.len() ==> self.snapshot.has_excerpt(#[trigger] ids@[k])
                &&& line_count < 5
            },
            Mutation::Insert { buffer, ranges } => {
                &&& es.len() == 0 || es.len() < max_excerpts
                &&& buffer == fresh || is_held(self.buffers@, buffer)
                &&& ranges@.len() < 5
                &&& forall|k: int|
                    0 <= k < ranges@.len() ==> is_text_range(
                        buffer.bytes(),
                        (#[trigger] ranges@[k]).context,
                    ) && ranges@[k].primary is None
            },
            Mutation::Remove { ids } => {
                &&& 1 <= ids@.len() <= es.len()
                &&& names_in_order(self.snapshot, ids@)
            },
        }
    }

    /// A change that can be drawn makes sense.
    pub proof fn lemma_makes_sense(
        &self,
        mutation: Mutation,
        max_excerpts: int,
        fresh: Arc<BufferSnapshot>,
    )
        requires
            self.wf(),
            self.can_come(mutation, max_excerpts, fresh),
            fresh.wf(),
            is_unseen(self.snapshot.excerpts@, *fresh),
        ensures
            self.makes_sense(mutation),
    {
        match mutation {
            Mutation::Insert { buffer, ranges } => {
                if buffer == fresh {
                    lemma_unseen(self.snapshot.excerpts@, self.buffers@, fresh);
                } else {
                    let s = choose|s: int|
                        0 <= s < self.buffers@.len() && (#[trigger] self.buffers@[s]).buffer
                            == buffer;
                    lemma_known(self.snapshot.excerpts@, self.buffers@, s);
                }
                assert forall|k: int| 0 <= k < ranges@.len() implies showable(
                    #[trigger] ranges@[k],
                    *buffer,
                ) by {
                    assert(is_text_range(buffer.bytes(), ranges@[k].context));
                }
            },
            _ => {},
        }
    }

    /// Draws which excerpts grow.
    fn random_expansion(&self, rng: &mut StdRng) -> (r: Mutation)
        requires
            self.wf(),
            self.snapshot.excerpts@.len() > 0,
        ensures
            r is Expand,
            forall|max: int, fresh| #[trigger] self.can_come(r, max, fresh),
    {
        let ids = self.excerpt_ids();
        let count: usize = gen_range(rng, 0, ids.len() - 1);
        let mut drawn: Vec<ExcerptId> = Vec::new();
        let mut k: usize = 0;
        while k < count
            invariant
                ids@ == ids_of(self.snapshot.excerpts@),
                k <= count < ids@.len(),
                drawn@.len() <= k,
                forall|j: int| 0 <= j < drawn@.len() ==> ids@.contains(#[trigger] drawn@[j]),
            decreases count - k,
        {
            if let Some(id) = choose_id(rng, &ids) {
                drawn.push(id);
            }
            k = k + 1;
        }
        let chosen = drop_repeats(&drawn);
        proof {
            lemma_without_repeats(drawn@);
            assert forall|j: int| 0 <= j < chosen@.len() implies self.snapshot.has_excerpt(
                #[trigger] chosen@[j],
            ) by {
                assert(chosen@.contains(chosen@[j]));
                let d = choose|d: int| 0 <= d < drawn@.len() && drawn@[d] == chosen@[j];
                assert(ids@.contains(drawn@[d]));
                let i = choose|i: int| 0 <= i < ids@.len() && ids@[i] == drawn@[d];
                self.snapshot.lemma_excerpt_id(i);
            }
        }
        let line_count: usize = gen_range(rng, 0, 4);
        Mutation::Expand { ids: chosen, line_count: line_count as u32 }
    }

    /// Draws which ranges of which buffer are shown.
    fn random_insertion(&self, rng: &mut StdRng, fresh: &Arc<BufferSnapshot>) -> (r: Mutation)
        requires
            self.wf(),
            fresh.wf(),
        ensures
            r is Insert,
            forall|max: int|
                self.snapshot.excerpts@.len() == 0 || self.snapshot.excerpts@.len() < max
                    ==> #[trigger] self.can_come(r, max, *fresh),
    {
        let is_fresh: bool = gen_bool(rng);
        let buffer = if is_fresh || self.buffers.len() == 0 {
            share(fresh)
        } else {
            match choose_index(rng, self.buffers.len()) {
                Some(s) => {
                    proof {
                        lemma_known(self.snapshot.excerpts@, self.buffers@, s as int);
                    }
                    share(&self.buffers[s].buffer)
                },
                None => share(fresh),
            }
        };
        let ranges = random_ranges(rng, &buffer);
        Mutation::Insert { buffer, ranges }
    }

    /// The chosen ones of the excerpts that are there, in the order in which they
    /// stand.
    pub fn in_place_order(&self, chosen: &Vec<ExcerptId>) -> (r: Vec<ExcerptId>)
        requires
            self.wf(),
        ensures
            r@ == chosen_of(ids_of(self.snapshot.excerpts@), chosen@),
            r@.len() <= self.snapshot.excerpts@.len(),
            names_in_order(self.snapshot, r@),
    {
        let ids = self.excerpt_ids();
        let ghost es = self.snapshot.excerpts@;
        let mut removed: Vec<ExcerptId> = Vec::new();
        let mut i: usize = 0;
        assert(ids@.take(0) =~= seq![]);
        while i < ids.len()
            invariant
                self.wf(),
                es == self.snapshot.excerpts@,
                ids@ == ids_of(es),
                i <= ids@.len(),
                removed@.len() <= i,
                names_in_order(self.snapshot, removed@),
                forall|k: int|
                    0 <= k < removed@.len() ==> self.snapshot.index_for(#[trigger] removed@[k])
                        < i,
                removed@ == chosen_of(ids@.take(i as int), chosen@),
            decreases ids@.len() - i,
        {
            proof {
                self.snapshot.lemma_excerpt_id(i as int);
                assert(ids@.take(i + 1).drop_last() =~= ids@.take(i as int));
            }
            if has_id(chosen, ids[i]) {
                let ghost before = removed@;
                removed.push(ids[i]);
                assert forall|k: int, l: int|
                    0 <= k < l < removed@.len() implies self.snapshot.index_for(
                    #[trigger] removed@[k],
                ) < self.snapshot.index_for(#[trigger] removed@[l]) by {
                    assert(removed@[k] == before[k]);
                    if l < before.len() {
                        assert(removed@[l] == before[l]);
                    }
                }
                assert forall|k: int| 0 <= k < removed@.len() implies self.snapshot.has_excerpt(
                    #[trigger] removed@[k],
                ) && self.snapshot.index_for(removed@[k]) < i + 1 by {
                    if k < before.len() {
                        assert(removed@[k] == before[k]);
                    }
                }
            }
            i = i + 1;
        }
        assert(ids@.take(ids@.len() as int) =~= ids@);
        removed
    }

    /// Draws which excerpts go.
    fn random_removal(&self, rng: &mut StdRng) -> (r: Mutation)
        requires
            self.wf(),
            self.snapshot.excerpts@.len() > 0,
        ensures
            r is Remove,
            forall|max: int, fresh| #[trigger] self.can_come(r, max, fresh),
    {
        let ids = self.excerpt_ids();
        let count: usize = gen_range(rng, 1, ids.len());
        let chosen = choose_ids(rng, &ids, count);
        let removed = self.in_place_order(&chosen);
        proof {
            assert(ids@.contains(chosen@[0]));
            lemma_chosen_of(ids@, chosen@, chosen@[0]);
        }
        Mutation::Remove { ids: removed }
    }

    /// The kind of a change, where it was drawn whether to clear, whether to expand
    /// and whether to insert.
    pub fn mutation_kind(
        &self,
        max_excerpts: usize,
        clears: bool,
        expands: bool,
        inserts: bool,
    ) -> (r: MutationKind)
        ensures
            r == kind_for(
                self.snapshot.excerpts@.len() as int,
                max_excerpts as int,
                clears,
                expands,
                inserts,
            ),
    {
        let count: usize = self.snapshot.excerpts.len();
        if clears {
            MutationKind::Clear
        } else if expands && count > 0 {
            MutationKind::Expand
        } else if count == 0 || (inserts && count < max_excerpts) {
            MutationKind::Insert
        } else {
            MutationKind::Remove
        }
    }

    /// Draws a change.
    pub fn random_mutation(
        &self,
        rng: &mut StdRng,
        max_excerpts: usize,
        fresh: &Arc<BufferSnapshot>,
    ) -> (r: Mutation)
        requires
            self.wf(),
            fresh.wf(),
        ensures
            self.can_come(r, max_excerpts as int, *fresh),
    {
        let clears: bool = gen_ratio(rng, 1, 20);
        let expands: bool = !clears && gen_ratio(rng, 1, 10);
        let inserts: bool = !clears && !expands && self.snapshot.excerpts.len() > 0 && gen_bool(
            rng,
        );
        match self.mutation_kind(max_excerpts, clears, expands, inserts) {
            MutationKind::Clear => Mutation::Clear,
            MutationKind::Expand => self.random_expansion(rng),
            MutationKind::Insert => self.random_insertion(rng, fresh),
            MutationKind::Remove => self.random_removal(rng),
        }
    }

    /// Makes `mutation_count` changes that are drawn at random, and returns them. A
    /// change shows at most the contents of one of the `fresh` buffers that were not
    /// shown before.
    pub fn randomly_edit_excerpts(
        &mut self,
        rng: &mut StdRng,
        mutation_count: usize,
        max_excerpts: usize,
        fresh: &Vec<Arc<BufferSnapshot>>,
    ) -> (r: Vec<Mutation>)
        requires
            old(self).wf(),
            !old(self).singleton,
            old(self).history.transaction_depth == 0,
            mutation_count <= fresh@.len(),
            are_fresh(*old(self), fresh@),
            always_fits(*old(self), mutation_count as int, max_excerpts as int, fresh@),
        ensures
            final(self).wf(),
            final(self).same_but_excerpts(old(self)),
            r@.len() == mutation_count,
            is_made(*old(self), *final(self), r@, max_excerpts as int, fresh@),
    {
        let ghost before = *self;
        let mut made: Vec<Mutation> = Vec::new();
        proof {
            assert(goes_through(seq![before], made@, max_excerpts as int, fresh@));
        }
        while made.len() < mutation_count
            invariant
                before == *old(self),
                always_fits(before, mutation_count as int, max_excerpts as int, fresh@),
                self.wf(),
                !self.singleton,
                self.history.transaction_depth == 0,
                self.same_but_excerpts(&before),
                made@.len() <= mutation_count <= fresh@.len(),
                forall|j: int| 0 <= j < fresh@.len() ==> (#[trigger] fresh@[j]).wf(),
                forall|j: int|
                    made@.len() <= j < fresh@.len() ==> is_unseen(
                        self.snapshot.excerpts@,
                        *(#[trigger] fresh@[j]),
                    ),
                forall|i: int, j: int|
                    0 <= i < j < fresh@.len() ==> (#[trigger] fresh@[i]).remote_id != (
                    #[trigger] fresh@[j]).remote_id,
                is_made(before, *self, made@, max_excerpts as int, fresh@),
            decreases mutation_count - made@.len(),
        {
            let next: usize = made.len();
            let ghost was = *self;
            assert(fresh@[next as int].wf());
            let mutation = self.random_mutation(rng, max_excerpts, &fresh[next]);
            proof {
                self.lemma_makes_sense(mutation, max_excerpts as int, fresh@[next as int]);
                assert(self.fits(mutation));
            }
            self.apply(&mutation);
            proof {
                lemma_made_more(
                    before,
                    was,
                    *self,
                    made@,
                    mutation,
                    max_excerpts as int,
                    fresh@,
                );
                assert forall|j: int| next < j < fresh@.len() implies is_unseen(
                    self.snapshot.excerpts@,
                    *(#[trigger] fresh@[j]),
                ) by {
                    lemma_other_buffer(was, mutation, max_excerpts as int, fresh@, next as int, j);
                    let other: &BufferSnapshot = &fresh@[j];
                    self.lemma_still_unseen(&was, mutation, *other);
                }
            }
            made.push(mutation);
        }
        made
    }

    /// Draws edits of the text, `edit_count` of them or as many as there is room
    /// for, with given texts.
    fn random_edits(&self, rng: &mut StdRng, edit_count: usize, new_texts: &Vec<String>) -> (r: Vec<
        (Range<usize>, String),
    >)
        requires
            self.wf(),
            edit_count <= new_texts@.len(),
        ensures
            can_be_drawn(self.snapshot.bytes(), r@, edit_count as int, new_texts@),
    {
        let ghost t = self.snapshot.bytes();
        let len: usize = self.snapshot.len();
        let mut edits: Vec<(Range<usize>, String)> = Vec::new();
        let mut last_end: Option<usize> = None;
        let mut is_full: bool = false;
        while edits.len() < edit_count && !is_full
            invariant
                self.wf(),
                t == self.snapshot.bytes(),
                len == t.len(),
                edits@.len() <= edit_count <= new_texts@.len(),
                forall|k: int|
                    0 <= k < edits@.len() ==> is_text_range(t, ordered((#[trigger] edits@[k]).0))
                        && edits@[k].1 == new_texts@[k],
                forall|k: int|
                    0 < k < edits@.len() ==> ordered(edits@[k - 1].0).end < ordered(
                        (#[trigger] edits@[k]).0,
                    ).start,
                match last_end {
                    Some(end) => edits@.len() > 0 && ordered(edits@.last().0).end == end,
                    None => edits@.len() == 0,
                },
                is_full ==> edits@.len() > 0 && ordered(edits@.last().0).end == len,
            decreases edit_count - edits@.len(), 1 - is_full as int,
        {
            let new_start: usize = match last_end {
                Some(end) => if end >= len {
                    len
                } else {
                    end + 1
                },
                None => 0,
            };
            if last_end.is_some() && last_end.unwrap() >= len {
                is_full = true;
            } else {
                let range = self.snapshot.random_byte_range(new_start, rng);
                last_end = Some(range.end);
                let ghost before = edits@;
                let is_swapped: bool = gen_ratio(rng, 1, 5);
                let new_text = new_texts[edits.len()].clone();
                let ghost made = range;
                if is_swapped {
                    edits.push((range.end..range.start, new_text));
                } else {
                    edits.push((range, new_text));
                }
                assert(ordered(edits@.last().0) == made);
                assert forall|k: int| 0 <= k < edits@.len() implies is_text_range(
                    t,
                    ordered((#[trigger] edits@[k]).0),
                ) && edits@[k].1 == new_texts@[k] by {
                    if k < before.len() {
                        assert(edits@[k] == before[k]);
                    }
                }
                assert forall|k: int| 0 < k < edits@.len() implies ordered(edits@[k - 1].0).end
                    < ordered((#[trigger] edits@[k]).0).start by {
                    assert(edits@[k - 1] == before[k - 1]);
                    if k < before.len() {
                        assert(edits@[k] == before[k]);
                    }
                }
            }
        }
        edits
    }

    /// What to ask of the buffers, so that ranges of the multibuffer that are drawn at
    /// random hold new texts.
    pub fn randomly_edit(
        &mut self,
        rng: &mut StdRng,
        edit_count: usize,
        new_texts: &Vec<String>,
    ) -> (r: EditPlan)
        requires
            old(self).wf(),
            edit_count <= new_texts@.len(),
        ensures
            final(self).wf(),
            exists|edits: Seq<(Range<usize>, String)>| #[trigger]
                can_be_drawn(
                    old(self).snapshot.bytes(),
                    edits,
                    edit_count as int,
                    new_texts@,
                ) && final(self).has_planned(old(self), edits, None, r),
    {
        let edits = self.random_edits(rng, edit_count, new_texts);
        proof {
            assert forall|k: int| 0 <= k < edits@.len() implies (
            #[trigger] edits@[k]).0.start.is_position(self.snapshot)
                && edits@[k].0.end.is_position(self.snapshot) by {
                assert(is_text_range(self.snapshot.bytes(), ordered(edits@[k].0)));
            }
        }
        self.edit(&edits, None)
    }

    /// Makes a change that is drawn at random, or says which buffer is to make one.
    pub fn randomly_mutate(
        &mut self,
        rng: &mut StdRng,
        mutation_count: usize,
        max_excerpts: usize,
        fresh: &Vec<Arc<BufferSnapshot>>,
        new_texts: &Vec<String>,
    ) -> (r: RandomChange)
        requires
            old(self).wf(),
            old(self).history.transaction_depth == 0,
            mutation_count <= fresh@.len(),
            mutation_count <= new_texts@.len(),
            are_fresh(*old(self), fresh@),
            !old(self).singleton ==> always_fits(
                *old(self),
                mutation_count as int,
                max_excerpts as int,
                fresh@,
            ),
        ensures
            final(self).wf(),
            match r {
                RandomChange::Buffer { buffer_id, edits } => {
                    &&& *final(self) == *old(self)
                    &&& exists|s: int|
                        0 <= s < old(self).buffers@.len() && (#[trigger] old(
                            self,
                        ).buffers@[s]).buffer.remote_id == buffer_id
                },
                RandomChange::Edits(plan) => {
                    &&& old(self).buffers@.len() == 0
                    &&& plan is Nothing
                    &&& *final(self) == *old(self)
                },
                RandomChange::Excerpts(made) => {
                    &&& !old(self).singleton
                    &&& is_made(*old(self), *final(self), made@, max_excerpts as int, fresh@)
                    &&& made@.len() == mutation_count
                },
            },
    {
        if gen_ratio(rng, 7, 10) || self.singleton {
            match choose_index(rng, self.buffers.len()) {
                Some(s) => {
                    let buffer_id = self.buffers[s].buffer.remote_id;
                    let edits: bool = gen_bool(rng);
                    RandomChange::Buffer { buffer_id, edits }
                },
                None => RandomChange::Edits(self.randomly_edit(rng, mutation_count, new_texts)),
            }
        } else {
            RandomChange::Excerpts(
                self.randomly_edit_excerpts(rng, mutation_count, max_excerpts, fresh),
            )
        }
    }

    /// A multibuffer to which one to five changes have been made that are drawn at
    /// random.
    pub fn build_random(
        rng: &mut StdRng,
        max_excerpts: usize,
        fresh: &Vec<Arc<BufferSnapshot>>,
    ) -> (r: Self)
        requires
            fresh@.len() >= 5,
            forall|j: int|
                0 <= j < fresh@.len() ==> (#[trigger] fresh@[j]).wf() && 5 * most_growth(
                    fresh@[j].bytes().len() as int,
                ) <= MAX_TEXT_LEN,
            forall|i: int, j: int|
                0 <= i < j < fresh@.len() ==> (#[trigger] fresh@[i]).remote_id != (
                #[trigger] fresh@[j]).remote_id,
        ensures
            r.wf(),
            is_random(r, max_excerpts as int, fresh@),
    {
        let mut multibuffer = MultiBuffer::new(Capability::ReadWrite);
        let ghost empty = multibuffer;
        let mutation_count: usize = gen_range(rng, 1, 5);
        proof {
            lemma_room_for_few(empty, mutation_count as int, max_excerpts as int, fresh@);
        }
        let made = multibuffer.randomly_edit_excerpts(rng, mutation_count, max_excerpts, fresh);
        assert(is_made(empty, multibuffer, made@, max_excerpts as int, fresh@));
        multibuffer
    }
}

/// Whether one to five changes make a multibuffer of one that holds nothing.
pub open spec fn is_random(
    buffer: MultiBuffer,
    max_excerpts: int,
    fresh: Seq<Arc<BufferSnapshot>>,
) -> bool {
    exists|empty: MultiBuffer, made: Seq<Mutation>|
        {
            &&& empty.is_new(Capability::ReadWrite, true)
            &&& 1 <= made.len() <= 5
            &&& #[trigger] is_made(empty, buffer, made, max_excerpts, fresh)
        }
}

/// Whether one of the states holds these contents of a buffer.
pub open spec fn is_held(states: Seq<BufferState>, buffer: Arc<BufferSnapshot>) -> bool {
    exists|s: int| 0 <= s < states.len() && (#[trigger] states[s]).buffer == buffer
}

} // verus!
