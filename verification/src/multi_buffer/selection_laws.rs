//! What holds of the selections that a multibuffer asks its buffers for.

use vstd::prelude::*;

use crate::anchor::Anchor;
use crate::buffer::{BufferId, BufferSnapshot, TextAnchor};
use crate::excerpt::Excerpt;
use crate::locator::{digits_before, lemma_order_transitive};
use crate::multi_buffer::by_buffer::{items_of, lemma_item, lemma_item_place};
use crate::multi_buffer::selections::{
    merged_selections, parts_within, settled_selections, without_items, Selection,
};
use crate::multi_buffer::BufferState;
use crate::snapshot::ids::lemma_locator_index;
use crate::snapshot::MultiBufferSnapshot;
use crate::sorting::{in_order, lemma_in_order_from};
use crate::text::Bias;

verus! {

/// Whether the part of a selection in an excerpt is as it should be: it starts and ends
/// where the selection does, or else where the excerpt does, and is the same selection.
pub open spec fn is_part_in<G>(
    e: Excerpt,
    selection: Selection<Anchor, G>,
    part: Selection<TextAnchor, G>,
) -> bool {
    &&& part.id == selection.id
    &&& part.reversed == selection.reversed
    &&& part.goal == selection.goal
    &&& e.id == selection.start.excerpt_id ==> part.start == selection.start.text_anchor
    &&& e.id != selection.start.excerpt_id ==> part.start == e.range.context.start
    &&& e.id == selection.end.excerpt_id ==> part.end == selection.end.text_anchor
    &&& e.id != selection.end.excerpt_id ==> part.end == e.range.context.end
}

proof fn lemma_parts_within<G>(
    es: Seq<Excerpt>,
    selection: Selection<Anchor, G>,
    from: int,
    to: int,
    k: int,
)
    ensures
        ({
            let r = parts_within(es, selection, from, to);
            &&& r.len() == if from < to {
                to - from
            } else {
                0
            }
            &&& 0 <= k < r.len() ==> r[k].0 == es[from + k].buffer_id && is_part_in(
                es[from + k],
                selection,
                r[k].1,
            )
        }),
    decreases to - from,
{
    if from < to {
        lemma_parts_within(es, selection, from, to - 1, k);
    }
}

impl MultiBufferSnapshot {
    /// Whether a selection reaches over an excerpt: the excerpt stands neither before the
    /// place that the selection starts in nor behind the one that it ends in.
    pub open spec fn reaches_over<G>(&self, selection: Selection<Anchor, G>, e: Excerpt) -> bool {
        &&& !digits_before(e.locator@, self.locator_for(selection.start.excerpt_id))
        &&& !digits_before(self.locator_for(selection.end.excerpt_id), e.locator@)
    }

    /// A selection has a part in each excerpt that it reaches over, in their order, and in
    /// no other.
    pub proof fn lemma_parts_of<G>(&self, selection: Selection<Anchor, G>, m: int)
        requires
            self.wf(),
            0 <= m < self.excerpts@.len(),
        ensures
            ({
                let es = self.excerpts@;
                let r = self.parts_of(selection);
                let from = self.index_for(selection.start.excerpt_id);
                &&& self.reaches_over(selection, es[m]) <==> from <= m < from + r.len()
                &&& self.reaches_over(selection, es[m]) ==> r[m - from].0 == es[m].buffer_id
                    && is_part_in(es[m], selection, r[m - from].1)
            }),
    {
        let es = self.excerpts@;
        let start = self.locator_for(selection.start.excerpt_id);
        let end = self.locator_for(selection.end.excerpt_id);
        let from = self.index_for(selection.start.excerpt_id);
        let to = self.index_behind(selection.end.excerpt_id);
        self.lemma_place_found(selection.start.excerpt_id, from);
        lemma_locator_index(es, end, Bias::Right, 0);
        lemma_parts_within(es, selection, from, to, m - from);
        assert(digits_before(end, es[m].locator@) <==> m >= to) by {
            if m > to {
                assert(digits_before(es[to].locator@, es[m].locator@));
                lemma_order_transitive(end, es[to].locator@, es[m].locator@);
            }
        }
        assert(digits_before(es[m].locator@, start) <==> m < from);
    }

    /// The parts of several selections are those of each of them.
    pub proof fn lemma_all_parts<G>(&self, selections: Seq<Selection<Anchor, G>>, k: int)
        requires
            0 <= k < selections.len(),
        ensures
            ({
                let before = self.all_parts(selections.take(k)).len() as int;
                let own = self.parts_of(selections[k]);
                let all = self.all_parts(selections);
                &&& before + own.len() <= all.len()
                &&& all.subrange(before, before + own.len()) == own
                &&& k == selections.len() - 1 ==> before + own.len() == all.len()
            }),
        decreases selections.len(),
    {
        let front = selections.drop_last();
        let so_far = self.all_parts(front);
        let all = self.all_parts(selections);
        if k < front.len() {
            self.lemma_all_parts(front, k);
            assert(front.take(k) =~= selections.take(k));
            let before = self.all_parts(selections.take(k)).len() as int;
            let own = self.parts_of(selections[k]);
            assert(all.subrange(before, before + own.len()) =~= so_far.subrange(
                before,
                before + own.len(),
            ));
        } else {
            assert(selections.take(k) =~= front);
            let own = self.parts_of(selections[k]);
            assert(all.subrange(so_far.len() as int, all.len() as int) =~= own);
        }
    }
}

/// The buffers whose selections are cleared are just those known buffers of which no part
/// of a selection is.
pub proof fn lemma_cleared<T>(
    states: Seq<BufferState>,
    all: Seq<(BufferId, T)>,
    buffer_id: BufferId,
)
    ensures
        without_items(states, all).contains(buffer_id) <==> (exists|s: int|
            0 <= s < states.len() && (#[trigger] states[s]).buffer.remote_id == buffer_id)
            && forall|k: int| 0 <= k < all.len() ==> (#[trigger] all[k]).0 != buffer_id,
    decreases states.len(),
{
    let r = without_items(states, all);
    assert(items_of(all, buffer_id).len() == 0 <==> forall|k: int|
        0 <= k < all.len() ==> (#[trigger] all[k]).0 != buffer_id) by {
        if items_of(all, buffer_id).len() > 0 {
            let k = lemma_item(all, buffer_id);
            assert(all[k].0 == buffer_id);
        }
        if exists|k: int| 0 <= k < all.len() && (#[trigger] all[k]).0 == buffer_id {
            let k = choose|k: int| 0 <= k < all.len() && (#[trigger] all[k]).0 == buffer_id;
            let _ = lemma_item_place(all, k);
        }
    }
    if states.len() > 0 {
        let front = states.drop_last();
        let n = front.len() as int;
        let before = without_items(front, all);
        lemma_cleared(front, all, buffer_id);
        if before.contains(buffer_id) {
            let a = choose|a: int| 0 <= a < before.len() && before[a] == buffer_id;
            assert(r[a] == buffer_id);
            let s = choose|s: int|
                0 <= s < front.len() && (#[trigger] front[s]).buffer.remote_id == buffer_id;
            assert(states[s].buffer.remote_id == buffer_id);
        }
        if r.contains(buffer_id) {
            let a = choose|a: int| 0 <= a < r.len() && r[a] == buffer_id;
            if a < before.len() {
                assert(before[a] == buffer_id);
            } else {
                assert(states[n].buffer.remote_id == buffer_id);
            }
        }
        if items_of(all, buffer_id).len() == 0 && exists|s: int|
            0 <= s < states.len() && (#[trigger] states[s]).buffer.remote_id == buffer_id {
            let s = choose|s: int|
                0 <= s < states.len() && (#[trigger] states[s]).buffer.remote_id == buffer_id;
            if s < n {
                assert(front[s].buffer.remote_id == buffer_id);
                assert(before.contains(buffer_id));
            } else {
                assert(r[before.len() as int] == buffer_id);
            }
        }
    }
}

/// Whether a settled selection starts with the `f`-th of the selections: it has its
/// start, and is the same selection.
pub open spec fn starts_with_selection<G>(
    selections: Seq<Selection<TextAnchor, G>>,
    f: int,
    settled: Selection<TextAnchor, G>,
) -> bool {
    &&& 0 <= f < selections.len()
    &&& selections[f].start == settled.start
    &&& selections[f].id == settled.id
    &&& selections[f].reversed == settled.reversed
    &&& selections[f].goal == settled.goal
}

/// Whether a settled selection ends with the `f`-th of the selections.
pub open spec fn ends_with_selection<G>(
    selections: Seq<Selection<TextAnchor, G>>,
    f: int,
    settled: Selection<TextAnchor, G>,
) -> bool {
    0 <= f < selections.len() && selections[f].end == settled.end
}

proof fn lemma_merged_selection<G>(
    selections: Seq<Selection<TextAnchor, G>>,
    len: int,
    m: int,
)
    requires
        0 <= m < merged_selections(selections, len).len(),
    ensures
        exists|f: int|
            starts_with_selection(selections, f, merged_selections(selections, len)[m]),
        exists|f: int| ends_with_selection(selections, f, merged_selections(selections, len)[m]),
    decreases selections.len(),
{
    let front = selections.drop_last();
    let last = selections.last();
    let n = front.len() as int;
    let before = merged_selections(front, len);
    let s = merged_selections(selections, len)[m];
    assert(selections[n] == last);
    if m < before.len() {
        lemma_merged_selection(front, len, m);
        let a = choose|f: int| starts_with_selection(front, f, before[m]);
        assert(starts_with_selection(selections, a, s));
        if s.end == before[m].end {
            let b = choose|f: int| ends_with_selection(front, f, before[m]);
            assert(ends_with_selection(selections, b, s));
        } else {
            assert(ends_with_selection(selections, n, s));
        }
    } else {
        assert(starts_with_selection(selections, n, s));
        assert(ends_with_selection(selections, n, s));
    }
}

/// A selection that a buffer is asked for starts with one of the parts in it, and is the
/// same selection; and it ends with one of them.
pub proof fn lemma_settled_selection<G>(
    selections: Seq<Selection<TextAnchor, G>>,
    buffer: BufferSnapshot,
    m: int,
)
    requires
        buffer.wf(),
        0 <= m < settled_selections(selections, buffer).len(),
    ensures
        exists|f: int|
            starts_with_selection(selections, f, settled_selections(selections, buffer)[m]),
        exists|f: int|
            ends_with_selection(selections, f, settled_selections(selections, buffer)[m]),
{
    let len = buffer.bytes().len() as int;
    let sorted = in_order(selections, buffer);
    let s = settled_selections(selections, buffer)[m];
    lemma_merged_selection(sorted, len, m);
    let a = choose|f: int| starts_with_selection(sorted, f, s);
    lemma_in_order_from(selections, buffer, a);
    let x = choose|x: int| 0 <= x < selections.len() && selections[x] == sorted[a];
    assert(starts_with_selection(selections, x, s));
    let b = choose|f: int| ends_with_selection(sorted, f, s);
    lemma_in_order_from(selections, buffer, b);
    let y = choose|y: int| 0 <= y < selections.len() && selections[y] == sorted[b];
    assert(ends_with_selection(selections, y, s));
}

} // verus!
