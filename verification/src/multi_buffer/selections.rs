//! What selections of a multibuffer ask of its buffers.

use vstd::prelude::*;

use crate::anchor::Anchor;
use crate::buffer::{anchor_precedes, BufferId, BufferSnapshot, TextAnchor};
use crate::excerpt::{Excerpt, ExcerptId};
use crate::multi_buffer::by_buffer::{
    has_group, items_of, lemma_has_group, lemma_item, sort_out, sorted_out, OfBuffer,
};
use crate::multi_buffer::plan::{buffer_with_id, lemma_buffer_with_id};
use crate::multi_buffer::{
    buffers_wf, has_state, state_fits, state_of, states_distinct, BufferState, MultiBuffer,
};
use crate::snapshot::ids::{lemma_locator_index, locator_index};
use crate::snapshot::MultiBufferSnapshot;
use crate::sorting::{in_order, lemma_in_order, lemma_in_order_from, sort, Sortable};
use crate::text::Bias;

verus! {

/// A selection: the stretch between two positions, and where a cursor that
/// leaves it wants to go.
#[derive(Clone, Copy, Debug)]
pub struct Selection<T, G> {
    pub id: usize,
    pub start: T,
    pub end: T,
    pub reversed: bool,
    pub goal: G,
}

impl<G> Sortable<BufferSnapshot> for Selection<TextAnchor, G> {
    open spec fn comparable(context: BufferSnapshot) -> bool {
        context.wf()
    }

    open spec fn belongs_before(self, other: Self, context: BufferSnapshot) -> bool {
        anchor_precedes(self.start, other.start, context.bytes().len() as int)
    }

    fn is_before(&self, other: &Self, context: &BufferSnapshot) -> (r: bool) {
        self.start.precedes(&other.start, context)
    }

    proof fn lemma_weak_order(a: Self, b: Self, c: Self, context: BufferSnapshot) {
    }
}

/// The part of a selection that lies in an excerpt.
pub open spec fn part_in<G>(
    e: Excerpt,
    selection: Selection<Anchor, G>,
) -> Selection<TextAnchor, G> {
    Selection {
        id: selection.id,
        start: if e.id == selection.start.excerpt_id {
            selection.start.text_anchor
        } else {
            e.range.context.start
        },
        end: if e.id == selection.end.excerpt_id {
            selection.end.text_anchor
        } else {
            e.range.context.end
        },
        reversed: selection.reversed,
        goal: selection.goal,
    }
}

/// The parts of a selection in the excerpts from `from` to before `to`.
pub open spec fn parts_within<G>(
    es: Seq<Excerpt>,
    selection: Selection<Anchor, G>,
    from: int,
    to: int,
) -> Seq<(BufferId, Selection<TextAnchor, G>)>
    decreases to - from,
{
    if from >= to {
        seq![]
    } else {
        parts_within(es, selection, from, to - 1).push(
            (es[to - 1].buffer_id, part_in(es[to - 1], selection)),
        )
    }
}

impl MultiBufferSnapshot {
    /// The first excerpt behind the place of an identifier.
    pub open spec fn index_behind(&self, id: ExcerptId) -> int {
        locator_index(self.excerpts@, self.locator_for(id), Bias::Right, 0)
    }

    /// The parts of a selection in the excerpts that it reaches over.
    pub open spec fn parts_of<G>(&self, selection: Selection<Anchor, G>) -> Seq<
        (BufferId, Selection<TextAnchor, G>),
    > {
        parts_within(
            self.excerpts@,
            selection,
            self.index_for(selection.start.excerpt_id),
            self.index_behind(selection.end.excerpt_id),
        )
    }

    /// The parts of selections, one selection after the other.
    pub open spec fn all_parts<G>(&self, selections: Seq<Selection<Anchor, G>>) -> Seq<
        (BufferId, Selection<TextAnchor, G>),
    >
        decreases selections.len(),
    {
        if selections.len() == 0 {
            seq![]
        } else {
            self.all_parts(selections.drop_last()) + self.parts_of(selections.last())
        }
    }
}

/// The selections with one more, which goes into the last where it touches it.
pub open spec fn with_selection<G>(
    selections: Seq<Selection<TextAnchor, G>>,
    selection: Selection<TextAnchor, G>,
    len: int,
) -> Seq<Selection<TextAnchor, G>> {
    if selections.len() > 0 && !anchor_precedes(selections.last().end, selection.start, len) {
        let last = selections.last();
        let end = if anchor_precedes(selection.end, last.end, len) {
            last.end
        } else {
            selection.end
        };
        selections.drop_last().push(Selection { end, ..last })
    } else {
        selections.push(selection)
    }
}

/// The selections, those that touch made one.
pub open spec fn merged_selections<G>(
    selections: Seq<Selection<TextAnchor, G>>,
    len: int,
) -> Seq<Selection<TextAnchor, G>>
    decreases selections.len(),
{
    if selections.len() == 0 {
        seq![]
    } else {
        with_selection(merged_selections(selections.drop_last(), len), selections.last(), len)
    }
}

/// The selections of a buffer in order, those that touch made one.
pub open spec fn settled_selections<G>(
    selections: Seq<Selection<TextAnchor, G>>,
    buffer: BufferSnapshot,
) -> Seq<Selection<TextAnchor, G>> {
    merged_selections(in_order(selections, buffer), buffer.bytes().len() as int)
}

/// Whether each of the selections ends before the next starts.
pub open spec fn selections_apart<G>(
    selections: Seq<Selection<TextAnchor, G>>,
    len: int,
) -> bool {
    forall|i: int, j: int|
        0 <= i < j < selections.len() ==> anchor_precedes(
            (#[trigger] selections[i]).end,
            (#[trigger] selections[j]).start,
            len,
        )
}

/// What selections ask of the buffers.
#[derive(Debug)]
pub struct SelectionPlan<G> {
    /// The buffers that hold no selection.
    pub cleared: Vec<BufferId>,
    /// The selections of the others.
    pub set: Vec<OfBuffer<Selection<TextAnchor, G>>>,
}

/// The buffers that hold no item.
pub open spec fn without_items<T>(
    states: Seq<BufferState>,
    all: Seq<(BufferId, T)>,
) -> Seq<BufferId>
    decreases states.len(),
{
    if states.len() == 0 {
        seq![]
    } else {
        let front = without_items(states.drop_last(), all);
        let id = states.last().buffer.remote_id;
        if items_of(all, id).len() == 0 {
            front.push(id)
        } else {
            front
        }
    }
}

/// Whether each buffer that holds selections is asked for them, in order and
/// those that touch made one, and no other buffer is asked.
pub open spec fn sets_selections<G>(
    set: Seq<OfBuffer<Selection<TextAnchor, G>>>,
    all: Seq<(BufferId, Selection<TextAnchor, G>)>,
    states: Seq<BufferState>,
) -> bool {
    &&& forall|a: int, b: int|
        0 <= a < b < set.len() ==> (#[trigger] set[a]).buffer_id != (
        #[trigger] set[b]).buffer_id
    &&& forall|a: int|
        0 <= a < set.len() ==> (#[trigger] set[a]).items@ == settled_selections(
            items_of(all, set[a].buffer_id),
            buffer_with_id(states, set[a].buffer_id),
        )
    &&& forall|a: int|
        0 <= a < set.len() ==> items_of(all, (#[trigger] set[a]).buffer_id).len() > 0
    &&& forall|k: int| 0 <= k < all.len() ==> has_group(set, (#[trigger] all[k]).0)
}

/// Merging selections that are in order leaves a gap between any two.
pub proof fn lemma_merged_selections<G>(selections: Seq<Selection<TextAnchor, G>>, len: int)
    requires
        0 <= len,
        forall|i: int, j: int|
            0 <= i < j < selections.len() ==> !anchor_precedes(
                (#[trigger] selections[j]).start,
                (#[trigger] selections[i]).start,
                len,
            ),
        forall|i: int|
            0 <= i < selections.len() ==> !anchor_precedes(
                (#[trigger] selections[i]).end,
                selections[i].start,
                len,
            ),
    ensures
        selections_apart(merged_selections(selections, len), len),
        forall|i: int|
            0 <= i < merged_selections(selections, len).len() ==> !anchor_precedes(
                (#[trigger] merged_selections(selections, len)[i]).end,
                merged_selections(selections, len)[i].start,
                len,
            ),
        merged_selections(selections, len).len() > 0 <==> selections.len() > 0,
        selections.len() > 0 ==> !anchor_precedes(
            selections.last().start,
            merged_selections(selections, len).last().start,
            len,
        ),
    decreases selections.len(),
{
    if selections.len() > 0 {
        let front = selections.drop_last();
        let last = selections.last();
        assert forall|i: int, j: int| 0 <= i < j < front.len() implies !anchor_precedes(
            (#[trigger] front[j]).start,
            (#[trigger] front[i]).start,
            len,
        ) by {
            assert(!anchor_precedes(selections[j].start, selections[i].start, len));
        }
        assert forall|i: int| 0 <= i < front.len() implies !anchor_precedes(
            (#[trigger] front[i]).end,
            front[i].start,
            len,
        ) by {
            assert(!anchor_precedes(selections[i].end, selections[i].start, len));
        }
        lemma_merged_selections(front, len);
        assert(selections[selections.len() - 1] == last);
        if front.len() > 0 {
            assert(selections[front.len() - 1] == front.last());
            assert(!anchor_precedes(last.start, front.last().start, len));
        }
    }
}

/// Whether an anchor lies in the `k`-th of the selections, or at an end of it.
pub open spec fn lies_in<G>(
    selections: Seq<Selection<TextAnchor, G>>,
    k: int,
    anchor: TextAnchor,
    len: int,
) -> bool {
    &&& 0 <= k < selections.len()
    &&& !anchor_precedes(anchor, selections[k].start, len)
    &&& !anchor_precedes(selections[k].end, anchor, len)
}

/// Whether an anchor is selected.
pub open spec fn is_selected<G>(
    selections: Seq<Selection<TextAnchor, G>>,
    anchor: TextAnchor,
    len: int,
) -> bool {
    exists|k: int| lies_in(selections, k, anchor, len)
}

/// Merging selections that are in order selects what they select and nothing else.
pub proof fn lemma_merged_select<G>(
    selections: Seq<Selection<TextAnchor, G>>,
    anchor: TextAnchor,
    len: int,
)
    requires
        0 <= len,
        forall|i: int, j: int|
            0 <= i < j < selections.len() ==> !anchor_precedes(
                (#[trigger] selections[j]).start,
                (#[trigger] selections[i]).start,
                len,
            ),
        forall|i: int|
            0 <= i < selections.len() ==> !anchor_precedes(
                (#[trigger] selections[i]).end,
                selections[i].start,
                len,
            ),
    ensures
        is_selected(merged_selections(selections, len), anchor, len) == is_selected(
            selections,
            anchor,
            len,
        ),
    decreases selections.len(),
{
    if selections.len() > 0 {
        let front = selections.drop_last();
        let last = selections.last();
        assert forall|i: int, j: int| 0 <= i < j < front.len() implies !anchor_precedes(
            (#[trigger] front[j]).start,
            (#[trigger] front[i]).start,
            len,
        ) by {
            assert(!anchor_precedes(selections[j].start, selections[i].start, len));
        }
        assert forall|i: int| 0 <= i < front.len() implies !anchor_precedes(
            (#[trigger] front[i]).end,
            front[i].start,
            len,
        ) by {
            assert(!anchor_precedes(selections[i].end, selections[i].start, len));
        }
        lemma_merged_selections(front, len);
        lemma_merged_select(front, anchor, len);
        let n = front.len() as int;
        let before = merged_selections(front, len);
        let after = merged_selections(selections, len);
        let m = before.len() as int;
        assert(selections[n] == last);
        assert(!anchor_precedes(last.end, last.start, len));
        if n > 0 {
            assert(selections[n - 1] == front.last());
            assert(!anchor_precedes(last.start, front.last().start, len));
            assert(!anchor_precedes(before[m - 1].end, before[m - 1].start, len));
        }
        if is_selected(selections, anchor, len) {
            let k = choose|k: int| lies_in(selections, k, anchor, len);
            if k < n {
                assert(lies_in(front, k, anchor, len));
                let j = choose|j: int| lies_in(before, j, anchor, len);
                assert(lies_in(after, j, anchor, len));
            } else {
                assert(lies_in(after, after.len() - 1, anchor, len));
            }
        }
        if is_selected(after, anchor, len) {
            let j = choose|j: int| lies_in(after, j, anchor, len);
            if j < m && lies_in(before, j, anchor, len) {
                let k = choose|k: int| lies_in(front, k, anchor, len);
                assert(lies_in(selections, k, anchor, len));
            } else {
                assert(lies_in(selections, n, anchor, len));
            }
        }
    }
}

/// What a buffer is asked to select is what the parts of the selections in it
/// select, and nothing else.
pub proof fn lemma_settled_select<G>(
    selections: Seq<Selection<TextAnchor, G>>,
    buffer: BufferSnapshot,
    anchor: TextAnchor,
)
    requires
        buffer.wf(),
        forall|i: int|
            0 <= i < selections.len() ==> !anchor_precedes(
                (#[trigger] selections[i]).end,
                selections[i].start,
                buffer.bytes().len() as int,
            ),
    ensures
        is_selected(
            settled_selections(selections, buffer),
            anchor,
            buffer.bytes().len() as int,
        ) == is_selected(selections, anchor, buffer.bytes().len() as int),
{
    let len = buffer.bytes().len() as int;
    let sorted = in_order(selections, buffer);
    lemma_in_order(selections, buffer);
    assert forall|k: int| 0 <= k < sorted.len() implies !anchor_precedes(
        (#[trigger] sorted[k]).end,
        sorted[k].start,
        len,
    ) by {
        lemma_in_order_from(selections, buffer, k);
        let m = choose|m: int| 0 <= m < selections.len() && selections[m] == sorted[k];
        assert(!anchor_precedes(selections[m].end, selections[m].start, len));
    }
    assert forall|i: int, j: int| 0 <= i < j < sorted.len() implies !anchor_precedes(
        (#[trigger] sorted[j]).start,
        (#[trigger] sorted[i]).start,
        len,
    ) by {
        assert(!sorted[j].belongs_before(sorted[i], buffer));
    }
    lemma_merged_select(sorted, anchor, len);
    if is_selected(sorted, anchor, len) {
        let k = choose|k: int| lies_in(sorted, k, anchor, len);
        lemma_in_order_from(selections, buffer, k);
        let m = choose|m: int| 0 <= m < selections.len() && selections[m] == sorted[k];
        assert(lies_in(selections, m, anchor, len));
    }
    if is_selected(selections, anchor, len) {
        broadcast use vstd::seq_lib::group_to_multiset_ensures;

        let k = choose|k: int| lies_in(selections, k, anchor, len);
        assert(selections.to_multiset().contains(selections[k]));
        assert(sorted.to_multiset().contains(selections[k]));
        assert(sorted.contains(selections[k]));
        let m = choose|m: int| 0 <= m < sorted.len() && sorted[m] == selections[k];
        assert(lies_in(sorted, m, anchor, len));
    }
}

/// The selections of a buffer in order, those that touch made one.
fn settle_selections<G: Copy>(
    selections: Vec<Selection<TextAnchor, G>>,
    buffer: &BufferSnapshot,
) -> (r: Vec<Selection<TextAnchor, G>>)
    requires
        buffer.wf(),
    ensures
        r@ == settled_selections(selections@, *buffer),
{
    let sorted = sort(selections, buffer);
    let ghost all = sorted@;
    let ghost len = buffer.bytes().len() as int;
    let mut merged: Vec<Selection<TextAnchor, G>> = Vec::new();
    let mut k: usize = 0;
    assert(all.take(0) =~= Seq::<Selection<TextAnchor, G>>::empty());
    while k < sorted.len()
        invariant
            k <= all.len(),
            all == sorted@,
            buffer.wf(),
            len == buffer.bytes().len(),
            merged@ == merged_selections(all.take(k as int), len),
        decreases all.len() - k,
    {
        let selection = sorted[k];
        let ghost before = merged@;
        assert(all.take(k + 1).drop_last() =~= all.take(k as int));
        if merged.len() > 0 && !merged[merged.len() - 1].end.precedes(&selection.start, buffer) {
            let last: usize = merged.len() - 1;
            if !selection.end.precedes(&merged[last].end, buffer) {
                merged[last].end = selection.end;
            }
        } else {
            merged.push(selection);
        }
        assert(merged@ =~= with_selection(before, selection, len));
        k = k + 1;
    }
    assert(all.take(all.len() as int) =~= all);
    merged
}

impl MultiBufferSnapshot {
    /// The parts of selections, sorted out by buffer.
    fn parts_by_buffer<G: Copy>(&self, selections: &Vec<Selection<Anchor, G>>) -> (r: Vec<
        OfBuffer<Selection<TextAnchor, G>>,
    >)
        requires
            self.wf(),
        ensures
            sorted_out(r@, self.all_parts(selections@)),
    {
        let ghost es = self.excerpts@;
        let mut groups: Vec<OfBuffer<Selection<TextAnchor, G>>> = Vec::new();
        let mut k: usize = 0;
        assert(selections@.take(0) =~= Seq::<Selection<Anchor, G>>::empty());
        while k < selections.len()
            invariant
                self.wf(),
                es == self.excerpts@,
                k <= selections@.len(),
                sorted_out(groups@, self.all_parts(selections@.take(k as int))),
            decreases selections@.len() - k,
        {
            let selection = selections[k];
            let ghost before = self.all_parts(selections@.take(k as int));
            assert(selections@.take(k + 1).drop_last() =~= selections@.take(k as int));
            let start_locator = self.place_for_id(selection.start.excerpt_id);
            let end_locator = self.place_for_id(selection.end.excerpt_id);
            let from: usize = self.seek_locator(&start_locator, Bias::Left);
            let to: usize = self.seek_locator(&end_locator, Bias::Right);
            let mut i: usize = from;
            assert(before + parts_within(es, selection, from as int, from as int) =~= before);
            while i < to
                invariant
                    es == self.excerpts@,
                    from <= i,
                    i <= to || i == from,
                    to <= es.len(),
                    sorted_out(
                        groups@,
                        before + parts_within(es, selection, from as int, i as int),
                    ),
                decreases to - i,
            {
                let excerpt = &self.excerpts[i];
                let start = if excerpt.id == selection.start.excerpt_id {
                    selection.start.text_anchor
                } else {
                    excerpt.range.context.start
                };
                let end = if excerpt.id == selection.end.excerpt_id {
                    selection.end.text_anchor
                } else {
                    excerpt.range.context.end
                };
                let ghost so_far = before + parts_within(es, selection, from as int, i as int);
                sort_out(
                    &mut groups,
                    excerpt.buffer_id,
                    Selection {
                        id: selection.id,
                        start,
                        end,
                        reversed: selection.reversed,
                        goal: selection.goal,
                    },
                    Ghost(so_far),
                );
                assert(so_far.push((excerpt.buffer_id, part_in(*excerpt, selection))) =~= before
                    + parts_within(es, selection, from as int, i + 1));
                i = i + 1;
            }
            assert(parts_within(es, selection, from as int, i as int) =~= parts_within(
                es,
                selection,
                from as int,
                to as int,
            ));
            k = k + 1;
        }
        assert(selections@.take(selections@.len() as int) =~= selections@);
        groups
    }
}

impl MultiBuffer {
    /// What to ask of the buffers, so that they hold the selections.
    pub fn set_active_selections<G: Copy>(&self, selections: &Vec<Selection<Anchor, G>>) -> (r:
        SelectionPlan<G>)
        requires
            self.wf(),
            forall|k: int|
                0 <= k < selections@.len() ==> self.snapshot.knows_id(
                    (#[trigger] selections@[k]).start.excerpt_id,
                ) && self.snapshot.knows_id(selections@[k].end.excerpt_id),
        ensures
            r.cleared@ == without_items(self.buffers@, self.snapshot.all_parts(selections@)),
            sets_selections(r.set@, self.snapshot.all_parts(selections@), self.buffers@),
    {
        let ghost all = self.snapshot.all_parts(selections@);
        let ghost es = self.snapshot.excerpts@;
        let ghost states = self.buffers@;
        let groups = self.snapshot.parts_by_buffer(selections);
        let ghost gs = groups@;
        let mut cleared: Vec<BufferId> = Vec::new();
        let mut s: usize = 0;
        assert(states.take(0) =~= Seq::<BufferState>::empty());
        while s < self.buffers.len()
            invariant
                s <= states.len(),
                states == self.buffers@,
                gs == groups@,
                sorted_out(gs, all),
                cleared@ == without_items(states.take(s as int), all),
            decreases states.len() - s,
        {
            assert(states.take(s + 1).drop_last() =~= states.take(s as int));
            let id = self.buffers[s].buffer.remote_id;
            proof {
                lemma_has_group(gs, all, id);
            }
            if !holds_group(&groups, id) {
                cleared.push(id);
            }
            s = s + 1;
        }
        assert(states.take(states.len() as int) =~= states);
        let mut set: Vec<OfBuffer<Selection<TextAnchor, G>>> = Vec::new();
        let mut a: usize = 0;
        while a < groups.len()
            invariant
                self.wf(),
                es == self.snapshot.excerpts@,
                states == self.buffers@,
                all == self.snapshot.all_parts(selections@),
                a <= gs.len(),
                gs == groups@,
                sorted_out(gs, all),
                set@.len() == a,
                forall|b: int|
                    0 <= b < a ==> {
                        &&& (#[trigger] set@[b]).buffer_id == gs[b].buffer_id
                        &&& set@[b].items@ == settled_selections(
                            items_of(all, set@[b].buffer_id),
                            buffer_with_id(states, set@[b].buffer_id),
                        )
                    },
            decreases gs.len() - a,
        {
            let group = &groups[a];
            proof {
                assert(gs[a as int].items@ == items_of(all, gs[a as int].buffer_id));
                let k = lemma_item(all, group.buffer_id);
                lemma_parts_known(self.snapshot, states, selections@, k);
            }
            if let Some(s) = self.buffer_state_index(group.buffer_id) {
                proof {
                    assert(state_fits(es, states[s as int]) && states_distinct(states)) by {
                        reveal(buffers_wf);
                    }
                    lemma_buffer_with_id(states, s as int);
                }
                let items = settle_selections(
                    copy_selections(&group.items),
                    &self.buffers[s].buffer,
                );
                set.push(OfBuffer { buffer_id: group.buffer_id, items });
            }
            a = a + 1;
        }
        proof {
            let ss = set@;
            assert forall|i: int, j: int| 0 <= i < j < ss.len() implies (
            #[trigger] ss[i]).buffer_id != (#[trigger] ss[j]).buffer_id by {
                assert(gs[i].buffer_id != gs[j].buffer_id);
            }
            assert forall|k: int| 0 <= k < all.len() implies has_group(
                ss,
                (#[trigger] all[k]).0,
            ) by {
                assert(has_group(gs, all[k].0));
                let i = choose|i: int|
                    0 <= i < gs.len() && (#[trigger] gs[i]).buffer_id == all[k].0;
                assert(ss[i].buffer_id == all[k].0);
            }
        }
        SelectionPlan { cleared, set }
    }

    /// The buffers, which are to hold no selection any more.
    pub fn remove_active_selections(&self) -> (r: Vec<BufferId>)
        ensures
            r@ == self.buffers@.map_values(|state: BufferState| state.buffer.remote_id),
    {
        self.all_buffers()
    }

    /// The buffers that have excerpts.
    pub fn all_buffers(&self) -> (r: Vec<BufferId>)
        ensures
            r@ == self.buffers@.map_values(|state: BufferState| state.buffer.remote_id),
    {
        let ghost all = self.buffers@.map_values(|state: BufferState| state.buffer.remote_id);
        let mut r: Vec<BufferId> = Vec::new();
        let mut s: usize = 0;
        while s < self.buffers.len()
            invariant
                s <= self.buffers@.len(),
                all == self.buffers@.map_values(|state: BufferState| state.buffer.remote_id),
                r@ == all.take(s as int),
            decreases self.buffers@.len() - s,
        {
            r.push(self.buffers[s].buffer.remote_id);
            assert(r@ =~= all.take(s + 1));
            s = s + 1;
        }
        assert(all.take(self.buffers@.len() as int) =~= all);
        r
    }
}

/// Whether one of the groups is that of a buffer.
fn holds_group<T>(groups: &Vec<OfBuffer<T>>, buffer_id: BufferId) -> (r: bool)
    ensures
        r == has_group(groups@, buffer_id),
{
    let mut a: usize = 0;
    while a < groups.len()
        invariant
            a <= groups@.len(),
            forall|b: int| 0 <= b < a ==> (#[trigger] groups@[b]).buffer_id != buffer_id,
        decreases groups@.len() - a,
    {
        if groups[a].buffer_id == buffer_id {
            assert(groups@[a as int].buffer_id == buffer_id);
            return true;
        }
        a = a + 1;
    }
    false
}

fn copy_selections<G: Copy>(selections: &Vec<Selection<TextAnchor, G>>) -> (r: Vec<
    Selection<TextAnchor, G>,
>)
    ensures
        r@ == selections@,
{
    let mut r: Vec<Selection<TextAnchor, G>> = Vec::new();
    let mut k: usize = 0;
    while k < selections.len()
        invariant
            k <= selections@.len(),
            r@ == selections@.take(k as int),
        decreases selections@.len() - k,
    {
        r.push(selections[k]);
        assert(r@ =~= selections@.take(k + 1));
        k = k + 1;
    }
    assert(selections@.take(selections@.len() as int) =~= selections@);
    r
}

/// The parts of selections are of buffers that the multibuffer knows.
proof fn lemma_parts_known<G>(
    snapshot: MultiBufferSnapshot,
    states: Seq<BufferState>,
    selections: Seq<Selection<Anchor, G>>,
    k: int,
)
    requires
        snapshot.wf(),
        buffers_wf(snapshot.excerpts@, states),
        0 <= k < snapshot.all_parts(selections).len(),
    ensures
        exists|s: int|
            0 <= s < states.len() && (#[trigger] states[s]).buffer.remote_id
                == snapshot.all_parts(selections)[k].0,
    decreases selections.len(),
{
    if selections.len() > 0 {
        let front = snapshot.all_parts(selections.drop_last());
        if k < front.len() {
            lemma_parts_known(snapshot, states, selections.drop_last(), k);
        } else {
            let selection = selections.last();
            let from = snapshot.index_for(selection.start.excerpt_id);
            let to = snapshot.index_behind(selection.end.excerpt_id);
            let es = snapshot.excerpts@;
            lemma_locator_index(
                es,
                snapshot.locator_for(selection.start.excerpt_id),
                Bias::Left,
                0,
            );
            lemma_locator_index(
                es,
                snapshot.locator_for(selection.end.excerpt_id),
                Bias::Right,
                0,
            );
            lemma_parts_within_known(es, states, selection, from, to, k - front.len());
        }
    }
}

proof fn lemma_parts_within_known<G>(
    es: Seq<Excerpt>,
    states: Seq<BufferState>,
    selection: Selection<Anchor, G>,
    from: int,
    to: int,
    k: int,
)
    requires
        buffers_wf(es, states),
        forall|i: int| 0 <= i < es.len() ==> (#[trigger] es[i]).wf(),
        0 <= from,
        to <= es.len(),
        0 <= k < parts_within(es, selection, from, to).len(),
    ensures
        exists|s: int|
            0 <= s < states.len() && (#[trigger] states[s]).buffer.remote_id == parts_within(
                es,
                selection,
                from,
                to,
            )[k].0,
    decreases to - from,
{
    let parts = parts_within(es, selection, from, to);
    if k < parts.len() - 1 {
        lemma_parts_within_known(es, states, selection, from, to - 1, k);
    } else {
        reveal(buffers_wf);
        let e = es[to - 1];
        assert(has_state(states, e) && e.wf());
        let s = choose|s: int| state_of(states, s, e);
        assert(states[s].buffer.remote_id == parts[k].0);
    }
}

} // verus!
