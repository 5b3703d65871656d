//! Anchors in a multibuffer: where they are, and what becomes of them when
//! excerpts come and go.

use std::cmp::Ordering;
use vstd::prelude::*;

use crate::anchor::{max_anchor, min_anchor, Anchor};
use crate::buffer::{anchor_precedes, resolved, BufferSnapshot, TextAnchor};
use crate::excerpt::{
    excerpt_start, lemma_excerpt_position, lemma_excerpt_start_grows, lemma_excerpts_text_step,
    Excerpt, ExcerptId,
};
use crate::locator::{digits_before, lemma_order_strict, lemma_order_transitive};
use crate::position::ToOffset;
use crate::snapshot::convert::{lemma_singleton_text, lemma_summary_before, lemma_summary_within};
use crate::snapshot::ids::lemma_locator_index;
use crate::snapshot::{lemma_seek_offset, seek_index, MultiBufferSnapshot};
use crate::sorting::{in_order, sort, Sortable};
use crate::text::{summarize, Bias, TextDimension};

verus! {

/// `anchor` with the bias `bias`.
pub open spec fn rebiased(anchor: TextAnchor, bias: Bias, buffer: BufferSnapshot) -> TextAnchor {
    if anchor.bias == bias {
        anchor
    } else {
        buffer.anchor_spec(resolved(anchor, buffer.bytes().len() as int), bias)
    }
}

impl TextAnchor {
    /// The anchor with another bias.
    pub fn bias(&self, bias: Bias, buffer: &BufferSnapshot) -> (r: TextAnchor)
        requires
            buffer.wf(),
        ensures
            r == rebiased(*self, bias, *buffer),
    {
        if self.bias == bias {
            *self
        } else {
            buffer.anchor_at(self.to_offset(buffer), bias)
        }
    }
}

/// The position in an excerpt that stands for a lost anchor before it.
pub open spec fn anchor_at_start(e: Excerpt, bias: Bias) -> Anchor {
    let text_anchor = rebiased(e.range.context.start, bias, *e.buffer);
    Anchor {
        buffer_id: Some(e.buffer_id),
        excerpt_id: e.id,
        text_anchor: if anchor_precedes(
            e.range.context.end,
            text_anchor,
            e.buffer.bytes().len() as int,
        ) {
            e.range.context.end
        } else {
            text_anchor
        },
    }
}

/// The position in an excerpt that stands for a lost anchor behind it.
pub open spec fn anchor_at_end(e: Excerpt, bias: Bias) -> Anchor {
    let text_anchor = rebiased(e.range.context.end, bias, *e.buffer);
    Anchor {
        buffer_id: Some(e.buffer_id),
        excerpt_id: e.id,
        text_anchor: if anchor_precedes(
            text_anchor,
            e.range.context.start,
            e.buffer.bytes().len() as int,
        ) {
            e.range.context.start
        } else {
            text_anchor
        },
    }
}

impl MultiBufferSnapshot {
    /// The offset of an anchor: in its excerpt where that is still there, and
    /// else where it was.
    pub open spec fn anchor_offset(&self, anchor: Anchor) -> int {
        let es = self.excerpts@;
        let i = self.index_for(anchor.excerpt_id);
        if self.has_excerpt(anchor.excerpt_id) {
            let e = es[i];
            let o = resolved(anchor.text_anchor, e.buffer.bytes().len() as int);
            if o <= e.start() {
                excerpt_start(es, i)
            } else if o <= e.end() {
                excerpt_start(es, i) + o - e.start()
            } else {
                excerpt_start(es, i) + e.end() - e.start()
            }
        } else {
            excerpt_start(es, i)
        }
    }

    /// Whether `a` comes before `b`.
    pub open spec fn anchor_before_anchor(&self, a: Anchor, b: Anchor) -> bool {
        ||| self.id_before(a.excerpt_id, b.excerpt_id)
        ||| {
            &&& a.excerpt_id == b.excerpt_id
            &&& self.has_excerpt(a.excerpt_id)
            &&& anchor_precedes(
                a.text_anchor,
                b.text_anchor,
                self.excerpts@[self.index_for(a.excerpt_id)].buffer.bytes().len() as int,
            )
        }
    }

    /// What becomes of an anchor, and whether it keeps its position: it stays
    /// in its excerpt, or moves to the same position in a neighbouring one, or
    /// else to the nearest position that there is.
    pub open spec fn refreshed(&self, anchor: Anchor) -> (Anchor, bool) {
        let es = self.excerpts@;
        let id = anchor.excerpt_id;
        let i = self.index_for(id);
        if (self.has_excerpt(id) && es[i].holds(anchor)) || id.0 == 0 || id.0 == usize::MAX {
            (anchor, true)
        } else if i < es.len() && es[i].holds(anchor) {
            (Anchor { excerpt_id: es[i].id, ..anchor }, true)
        } else if i > 0 && es[i - 1].holds(anchor) {
            (Anchor { excerpt_id: es[i - 1].id, ..anchor }, true)
        } else if i < es.len() {
            (anchor_at_start(es[i], anchor.text_anchor.bias), false)
        } else if i > 0 {
            (anchor_at_end(es[i - 1], anchor.text_anchor.bias), false)
        } else if anchor.text_anchor.bias is Left {
            (min_anchor(), false)
        } else {
            (max_anchor(), false)
        }
    }

    pub proof fn lemma_anchor_offset(&self, anchor: Anchor)
        requires
            self.wf(),
        ensures
            0 <= self.anchor_offset(anchor) <= self.bytes().len(),
            0 <= self.index_for(anchor.excerpt_id) <= self.excerpts@.len(),
    {
        let es = self.excerpts@;
        let i = self.index_for(anchor.excerpt_id);
        self.lemma_locator_for(anchor.excerpt_id);
        lemma_summary_before(es, i);
        if self.has_excerpt(anchor.excerpt_id) {
            lemma_excerpt_position(es[i], 0);
            lemma_summary_within(es, i, es[i].bytes().len() as int);
        }
    }

    /// The offset of an anchor.
    pub fn offset_for_anchor(&self, anchor: &Anchor) -> (r: usize)
        requires
            self.wf(),
            self.knows_id(anchor.excerpt_id),
        ensures
            r == self.anchor_offset(*anchor),
            r <= self.bytes().len(),
    {
        let i: usize = self.index_for_id(anchor.excerpt_id);
        let cursor = self.cursor_at(i);
        proof {
            self.lemma_anchor_offset(*anchor);
        }
        if i < self.excerpts.len() && self.excerpts[i].id == anchor.excerpt_id {
            let excerpt = &self.excerpts[i];
            let start: usize = excerpt.buffer_start_offset();
            let end: usize = excerpt.buffer_end_offset();
            let offset: usize = anchor.text_anchor.to_offset(&excerpt.buffer);
            if offset <= start {
                cursor.start.len
            } else if offset <= end {
                cursor.start.len + (offset - start)
            } else {
                cursor.start.len + (end - start)
            }
        } else {
            cursor.start.len
        }
    }

    /// What the text before an anchor measures.
    pub fn summary_for_anchor<D: TextDimension>(&self, anchor: &Anchor) -> (r: D)
        requires
            self.wf(),
            self.knows_id(anchor.excerpt_id),
        ensures
            r.measures(summarize(self.bytes().take(self.anchor_offset(*anchor)))),
    {
        let offset: usize = self.offset_for_anchor(anchor);
        D::from_text_summary(&self.summary_at(offset))
    }

    /// The offset of an anchor among several: where the multibuffer shows a
    /// single buffer, the excerpt goes without saying.
    pub open spec fn listed_anchor_offset(&self, anchor: Anchor) -> int {
        if self.singleton && self.excerpts@.len() > 0 {
            resolved(anchor.text_anchor, self.bytes().len() as int)
        } else {
            self.anchor_offset(anchor)
        }
    }

    /// What the texts before several anchors measure.
    pub fn summaries_for_anchors<D: TextDimension>(&self, anchors: &Vec<Anchor>) -> (r: Vec<D>)
        requires
            self.wf(),
            forall|k: int|
                0 <= k < anchors@.len() ==> self.knows_id((#[trigger] anchors@[k]).excerpt_id),
        ensures
            r@.len() == anchors@.len(),
            forall|k: int|
                0 <= k < anchors@.len() ==> (#[trigger] r@[k]).measures(
                    summarize(self.bytes().take(self.listed_anchor_offset(anchors@[k]))),
                ),
    {
        let mut summaries: Vec<D> = Vec::new();
        let mut k: usize = 0;
        while k < anchors.len()
            invariant
                self.wf(),
                k <= anchors@.len(),
                summaries@.len() == k,
                forall|j: int|
                    0 <= j < k ==> (#[trigger] summaries@[j]).measures(
                        summarize(self.bytes().take(self.listed_anchor_offset(anchors@[j]))),
                    ),
                forall|j: int|
                    0 <= j < anchors@.len() ==> self.knows_id(
                        (#[trigger] anchors@[j]).excerpt_id,
                    ),
            decreases anchors@.len() - k,
        {
            let anchor = &anchors[k];
            let offset: usize = match self.as_singleton() {
                Some((_, _, buffer)) => {
                    proof {
                        lemma_singleton_text(*self);
                    }
                    anchor.text_anchor.to_offset(buffer)
                },
                None => self.offset_for_anchor(anchor),
            };
            summaries.push(D::from_text_summary(&self.summary_at(offset)));
            k = k + 1;
        }
        summaries
    }

    /// Whether `a` comes before `b`.
    pub(crate) fn is_anchor_before(&self, a: &Anchor, b: &Anchor) -> (r: bool)
        requires
            self.wf(),
        ensures
            r == self.anchor_before_anchor(*a, *b),
    {
        if self.is_id_before(a.excerpt_id, b.excerpt_id) {
            return true;
        }
        if a.excerpt_id.0 != b.excerpt_id.0 {
            return false;
        }
        let i: usize = self.index_for_id(a.excerpt_id);
        if i < self.excerpts.len() && self.excerpts[i].id == a.excerpt_id {
            a.text_anchor.precedes(&b.text_anchor, &self.excerpts[i].buffer)
        } else {
            false
        }
    }

    /// What becomes of one anchor.
    fn refresh_anchor(&self, anchor: &Anchor) -> (r: (Anchor, bool))
        requires
            self.wf(),
        ensures
            r == self.refreshed(*anchor),
    {
        let id = anchor.excerpt_id;
        let bias = anchor.text_anchor.bias;
        let i: usize = self.index_for_id(id);
        let next: Option<&Excerpt> = if i < self.excerpts.len() {
            Some(&self.excerpts[i])
        } else {
            None
        };
        let prev: Option<&Excerpt> = if i > 0 {
            Some(&self.excerpts[i - 1])
        } else {
            None
        };
        if id.0 == 0 || id.0 == usize::MAX {
            return (*anchor, true);
        }
        if let Some(excerpt) = next {
            if excerpt.contains(anchor) {
                return (
                    Anchor {
                        buffer_id: anchor.buffer_id,
                        excerpt_id: excerpt.id,
                        text_anchor: anchor.text_anchor,
                    },
                    true,
                );
            }
        }
        if let Some(excerpt) = prev {
            if excerpt.contains(anchor) {
                return (
                    Anchor {
                        buffer_id: anchor.buffer_id,
                        excerpt_id: excerpt.id,
                        text_anchor: anchor.text_anchor,
                    },
                    true,
                );
            }
        }
        if let Some(excerpt) = next {
            let mut text_anchor = excerpt.range.context.start.bias(bias, &excerpt.buffer);
            if excerpt.range.context.end.precedes(&text_anchor, &excerpt.buffer) {
                text_anchor = excerpt.range.context.end;
            }
            return (
                Anchor {
                    buffer_id: Some(excerpt.buffer_id),
                    excerpt_id: excerpt.id,
                    text_anchor,
                },
                false,
            );
        }
        if let Some(excerpt) = prev {
            let mut text_anchor = excerpt.range.context.end.bias(bias, &excerpt.buffer);
            if text_anchor.precedes(&excerpt.range.context.start, &excerpt.buffer) {
                text_anchor = excerpt.range.context.start;
            }
            return (
                Anchor {
                    buffer_id: Some(excerpt.buffer_id),
                    excerpt_id: excerpt.id,
                    text_anchor,
                },
                false,
            );
        }
        if bias == Bias::Left {
            (Anchor::min(), false)
        } else {
            (Anchor::max(), false)
        }
    }

    /// What becomes of several anchors, in their new order: the number of the
    /// anchor, the new anchor, and whether it keeps its position.
    pub fn refresh_anchors(&self, anchors: &Vec<Anchor>) -> (r: Vec<(usize, Anchor, bool)>)
        requires
            self.wf(),
            forall|k: int|
                0 <= k < anchors@.len() ==> self.knows_id((#[trigger] anchors@[k]).excerpt_id),
        ensures
            r@ == in_order(self.all_refreshed(anchors@), *self),
    {
        let mut result: Vec<(usize, Anchor, bool)> = Vec::new();
        let mut k: usize = 0;
        while k < anchors.len()
            invariant
                self.wf(),
                k <= anchors@.len(),
                result@ == self.all_refreshed(anchors@.take(k as int)),
            decreases anchors@.len() - k,
        {
            let (anchor, kept_position) = self.refresh_anchor(&anchors[k]);
            result.push((k, anchor, kept_position));
            assert(result@ =~= self.all_refreshed(anchors@.take(k + 1)));
            k = k + 1;
        }
        assert(anchors@.take(anchors@.len() as int) =~= anchors@);
        sort(result, self)
    }

    /// What becomes of each of several anchors.
    pub open spec fn all_refreshed(&self, anchors: Seq<Anchor>) -> Seq<(usize, Anchor, bool)> {
        Seq::new(
            anchors.len(),
            |k: int| (k as usize, self.refreshed(anchors[k]).0, self.refreshed(anchors[k]).1),
        )
    }

    /// An anchor in an excerpt that is still there, moved into the excerpt.
    pub fn anchor_in_excerpt(&self, excerpt_id: ExcerptId, text_anchor: TextAnchor) -> (r: Option<
        Anchor,
    >)
        requires
            self.wf(),
            self.knows_id(excerpt_id),
        ensures
            r == if self.has_excerpt(excerpt_id) {
                let e = self.excerpts@[self.index_for(excerpt_id)];
                Some(
                    Anchor {
                        buffer_id: Some(e.buffer_id),
                        excerpt_id,
                        text_anchor: e.clipped_anchor(text_anchor),
                    },
                )
            } else {
                None
            },
    {
        match self.excerpt(excerpt_id) {
            Some(excerpt) => Some(
                Anchor {
                    buffer_id: Some(excerpt.buffer_id),
                    excerpt_id,
                    text_anchor: excerpt.clip_anchor(text_anchor),
                },
            ),
            None => None,
        }
    }

    pub fn can_resolve(&self, anchor: &Anchor) -> (r: bool)
        requires
            self.wf(),
            self.knows_id(anchor.excerpt_id),
        ensures
            r == (anchor.excerpt_id.0 == 0 || anchor.excerpt_id.0 == usize::MAX || (
            self.has_excerpt(anchor.excerpt_id) && self.excerpts@[self.index_for(
                anchor.excerpt_id,
            )].buffer.knows(anchor.text_anchor))),
    {
        if anchor.excerpt_id.0 == 0 || anchor.excerpt_id.0 == usize::MAX {
            return true;
        }
        match self.excerpt(anchor.excerpt_id) {
            Some(excerpt) => excerpt.buffer.can_resolve(&anchor.text_anchor),
            None => false,
        }
    }
}

impl MultiBufferSnapshot {
    /// The excerpt that an anchor at `offset` goes into.
    pub open spec fn anchor_index(&self, offset: usize, bias: Bias) -> int {
        let n = self.excerpts@.len() as int;
        let i = seek_index(self.excerpts@, offset, Bias::Right, 0);
        if i == n && n > 0 && offset == self.bytes().len() && bias is Left {
            n - 1
        } else {
            i
        }
    }

    /// The anchor at `offset`.
    pub open spec fn anchor_at_offset(&self, offset: usize, bias: Bias) -> Anchor {
        let es = self.excerpts@;
        let i = self.anchor_index(offset, bias);
        if self.singleton && es.len() > 0 {
            Anchor {
                buffer_id: Some(es[0].buffer_id),
                excerpt_id: es[0].id,
                text_anchor: es[0].buffer.anchor_spec(offset as int, bias),
            }
        } else if i < es.len() {
            Anchor {
                buffer_id: Some(es[i].buffer_id),
                excerpt_id: es[i].id,
                text_anchor: es[i].clipped_anchor(
                    es[i].buffer.anchor_spec(
                        es[i].start() + offset - excerpt_start(es, i),
                        bias,
                    ),
                ),
            }
        } else if offset == 0 && bias is Left {
            min_anchor()
        } else {
            max_anchor()
        }
    }

    proof fn lemma_anchor_index(&self, offset: usize, bias: Bias)
        requires
            self.wf(),
            offset <= self.bytes().len(),
        ensures
            ({
                let es = self.excerpts@;
                let i = self.anchor_index(offset, bias);
                &&& 0 <= i <= es.len()
                &&& i < es.len() ==> excerpt_start(es, i) <= offset <= excerpt_start(es, i)
                    + es[i].bytes().len()
                &&& i == es.len() ==> offset == self.bytes().len() && (bias is Right || es.len()
                    == 0)
            }),
    {
        let es = self.excerpts@;
        let i = self.anchor_index(offset, bias);
        lemma_seek_offset(es, offset, Bias::Right);
        assert(es.take(es.len() as int) =~= es);
        if i < es.len() {
            lemma_excerpts_text_step(es, i);
        }
    }

    /// An anchor at an offset has that offset.
    pub proof fn lemma_anchor_at_offset(&self, offset: usize, bias: Bias)
        requires
            self.wf(),
            offset <= self.bytes().len(),
        ensures
            self.anchor_offset(self.anchor_at_offset(offset, bias)) == offset,
            self.knows_id(self.anchor_at_offset(offset, bias).excerpt_id),
    {
        let es = self.excerpts@;
        let i = self.anchor_index(offset, bias);
        assert(es.take(es.len() as int) =~= es);
        assert(es.take(0) =~= Seq::<Excerpt>::empty());
        self.lemma_anchor_index(offset, bias);
        if self.singleton && es.len() > 0 {
            lemma_singleton_text(*self);
            self.lemma_excerpt_id(0);
        } else if i < es.len() {
            self.lemma_excerpt_id(i);
            lemma_excerpt_position(es[i], 0);
        } else {
            self.lemma_locator_for(self.anchor_at_offset(offset, bias).excerpt_id);
        }
    }

    /// Anchors lie in the text in their order: of two, the one that comes before
    /// the other lies no further behind. Identifiers share a place only where the
    /// excerpt of the first was gone when that of the second was put there, so an
    /// excerpt that is there shares its place with no later one.
    pub proof fn lemma_anchors_in_order(&self, a: Anchor, b: Anchor)
        requires
            self.wf(),
            self.anchor_before_anchor(a, b),
            self.has_excerpt(a.excerpt_id) && a.excerpt_id != b.excerpt_id ==> self.locator_for(
                a.excerpt_id,
            ) != self.locator_for(b.excerpt_id),
        ensures
            self.anchor_offset(a) <= self.anchor_offset(b),
    {
        let es = self.excerpts@;
        let i = self.index_for(a.excerpt_id);
        let j = self.index_for(b.excerpt_id);
        let la = self.locator_for(a.excerpt_id);
        let lb = self.locator_for(b.excerpt_id);
        self.lemma_anchor_offset(a);
        self.lemma_anchor_offset(b);
        lemma_locator_index(es, la, Bias::Left, 0);
        lemma_locator_index(es, lb, Bias::Left, 0);
        if self.has_excerpt(a.excerpt_id) {
            self.lemma_excerpt_id(i);
            lemma_excerpt_position(es[i], 0);
            lemma_excerpts_text_step(es, i);
        }
        if digits_before(la, lb) {
            if j < i && digits_before(lb, es[j].locator@) {
                lemma_order_transitive(la, lb, es[j].locator@);
            }
            if self.has_excerpt(a.excerpt_id) {
                lemma_order_strict(la, lb);
                assert(i < j);
                lemma_excerpt_start_grows(es, i + 1, j);
            } else {
                lemma_excerpt_start_grows(es, i, j);
            }
        }
    }

    /// Where the multibuffer is not that of a single buffer, what stands before an
    /// anchor measures the same among several anchors as alone, whatever it is
    /// measured in.
    pub proof fn lemma_summaries_agree<D: TextDimension>(
        &self,
        anchor: Anchor,
        listed: D,
        alone: D,
    )
        requires
            self.wf(),
            !self.singleton,
            listed.measures(summarize(self.bytes().take(self.listed_anchor_offset(anchor)))),
            alone.measures(summarize(self.bytes().take(self.anchor_offset(anchor)))),
        ensures
            listed == alone,
    {
        D::lemma_measured(
            listed,
            alone,
            summarize(self.bytes().take(self.anchor_offset(anchor))),
        );
    }

    /// What becomes of an anchor lies in an excerpt that is there, unless it is
    /// the start or the end, and an anchor that keeps its position is still the
    /// same position of the same buffer, and stays as it is from then on.
    pub proof fn lemma_refreshed(&self, anchor: Anchor)
        requires
            self.wf(),
        ensures
            ({
                let (refreshed, kept) = self.refreshed(anchor);
                let id = refreshed.excerpt_id;
                let e = self.excerpts@[self.index_for(id)];
                &&& id.0 == 0 || id.0 == usize::MAX || {
                    &&& self.has_excerpt(id)
                    &&& e.start() <= resolved(
                        refreshed.text_anchor,
                        e.buffer.bytes().len() as int,
                    ) <= e.end()
                }
                &&& kept ==> {
                    &&& refreshed.buffer_id == anchor.buffer_id
                    &&& refreshed.text_anchor == anchor.text_anchor
                    &&& self.refreshed(refreshed) == (refreshed, true)
                }
            }),
    {
        let es = self.excerpts@;
        let i = self.index_for(anchor.excerpt_id);
        self.lemma_anchor_offset(anchor);
        if i < es.len() {
            self.lemma_excerpt_id(i);
            lemma_excerpt_position(es[i], 0);
        }
        if i > 0 {
            self.lemma_excerpt_id(i - 1);
            lemma_excerpt_position(es[i - 1], 0);
        }
    }

    /// An anchor at a position.
    pub fn anchor_at<T: ToOffset>(&self, position: T, bias: Bias) -> (r: Anchor)
        requires
            self.wf(),
            position.is_position(*self),
        ensures
            r == self.anchor_at_offset(position.offset(*self) as usize, bias),
            self.anchor_offset(r) == position.offset(*self),
            self.knows_id(r.excerpt_id),
    {
        let offset: usize = position.to_offset(self);
        proof {
            self.lemma_anchor_index(offset, bias);
            self.lemma_anchor_at_offset(offset, bias);
        }
        if let Some((excerpt_id, buffer_id, buffer)) = self.as_singleton() {
            proof {
                lemma_singleton_text(*self);
            }
            return Anchor {
                buffer_id: Some(buffer_id),
                excerpt_id,
                text_anchor: buffer.anchor_at(offset, bias),
            };
        }
        let mut cursor = self.seek(&offset, Bias::Right);
        if cursor.index == self.excerpts.len() && cursor.index > 0 && offset == cursor.start.len
            && bias == Bias::Left {
            proof {
                assert(self.excerpts@.take(self.excerpts@.len() as int) =~= self.excerpts@);
            }
            cursor = self.cursor_at(cursor.index - 1);
        }
        proof {
            assert(self.excerpts@.take(self.excerpts@.len() as int) =~= self.excerpts@);
        }
        if cursor.index < self.excerpts.len() {
            let excerpt = &self.excerpts[cursor.index];
            proof {
                lemma_excerpt_position(*excerpt, 0);
            }
            let overshoot: usize = offset - cursor.start.len;
            let buffer_start: usize = excerpt.buffer_start_offset();
            Anchor {
                buffer_id: Some(excerpt.buffer_id),
                excerpt_id: excerpt.id,
                text_anchor: excerpt.clip_anchor(
                    excerpt.buffer.anchor_at(buffer_start + overshoot, bias),
                ),
            }
        } else if offset == 0 && bias == Bias::Left {
            Anchor::min()
        } else {
            Anchor::max()
        }
    }

    /// An anchor at a position, before text that is inserted there.
    pub fn anchor_before<T: ToOffset>(&self, position: T) -> (r: Anchor)
        requires
            self.wf(),
            position.is_position(*self),
        ensures
            r == self.anchor_at_offset(position.offset(*self) as usize, Bias::Left),
            self.anchor_offset(r) == position.offset(*self),
            self.knows_id(r.excerpt_id),
    {
        self.anchor_at(position, Bias::Left)
    }

    /// An anchor at a position, behind text that is inserted there.
    pub fn anchor_after<T: ToOffset>(&self, position: T) -> (r: Anchor)
        requires
            self.wf(),
            position.is_position(*self),
        ensures
            r == self.anchor_at_offset(position.offset(*self) as usize, Bias::Right),
            self.anchor_offset(r) == position.offset(*self),
            self.knows_id(r.excerpt_id),
    {
        self.anchor_at(position, Bias::Right)
    }
}

impl Sortable<MultiBufferSnapshot> for (usize, Anchor, bool) {
    open spec fn comparable(context: MultiBufferSnapshot) -> bool {
        context.wf()
    }

    open spec fn belongs_before(self, other: Self, context: MultiBufferSnapshot) -> bool {
        context.anchor_before_anchor(self.1, other.1)
    }

    fn is_before(&self, other: &Self, context: &MultiBufferSnapshot) -> (r: bool) {
        context.is_anchor_before(&self.1, &other.1)
    }

    proof fn lemma_weak_order(a: Self, b: Self, c: Self, context: MultiBufferSnapshot) {
        context.lemma_id_order(a.1.excerpt_id, b.1.excerpt_id, c.1.excerpt_id);
        context.lemma_id_order(c.1.excerpt_id, a.1.excerpt_id, b.1.excerpt_id);
        context.lemma_id_order(b.1.excerpt_id, c.1.excerpt_id, a.1.excerpt_id);
        context.lemma_id_order(c.1.excerpt_id, b.1.excerpt_id, a.1.excerpt_id);
        context.lemma_id_order(b.1.excerpt_id, a.1.excerpt_id, c.1.excerpt_id);
        context.lemma_id_order(a.1.excerpt_id, c.1.excerpt_id, b.1.excerpt_id);
    }
}

impl Anchor {
    /// The order of anchors in the multibuffer.
    pub fn cmp(&self, other: &Anchor, snapshot: &MultiBufferSnapshot) -> (r: Ordering)
        requires
            snapshot.wf(),
            snapshot.knows_id(self.excerpt_id),
            snapshot.knows_id(other.excerpt_id),
        ensures
            r == if snapshot.anchor_before_anchor(*self, *other) {
                Ordering::Less
            } else if snapshot.anchor_before_anchor(*other, *self) {
                Ordering::Greater
            } else {
                Ordering::Equal
            },
    {
        if snapshot.is_anchor_before(self, other) {
            Ordering::Less
        } else if snapshot.is_anchor_before(other, self) {
            Ordering::Greater
        } else {
            Ordering::Equal
        }
    }
}

} // verus!
