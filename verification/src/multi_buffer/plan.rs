//! What edits of a multibuffer ask of its buffers.

use std::ops::Range;
use vstd::prelude::*;

use crate::buffer::{BufferId, BufferSnapshot, Capability, TextAnchor};
use crate::excerpt::{excerpts_text, Excerpt, ExcerptId};
use crate::multi_buffer::by_buffer::{has_group, items_of, sorted_out, OfBuffer};
use crate::multi_buffer::edit::{
    column_of, covered_edits, edited_index, edits_of_edit, edits_of_edits, ids_of_edits,
    lemma_edited_index, lemma_edited_index_grows, BufferEdit,
};
use crate::multi_buffer::sync::ids_of;
use crate::multi_buffer::{
    buffers_wf, digits_of, has_state, locators_of, state_fits, state_of, states_distinct,
    BufferState, Event, MultiBuffer,
};
use crate::position::ToOffset;
use crate::snapshot::{excerpts_wf, MultiBufferSnapshot};
use crate::sorting::{in_order, is_in_order, lemma_in_order, lemma_in_order_from, sort, Sortable};
use crate::text::Bias;

verus! {

/// How lines are indented that an edit touches.
#[derive(Debug, PartialEq, Eq)]
pub enum AutoindentMode {
    /// Each line by itself.
    EachLine,
    /// The lines of an edit together, from the column that the text had where it
    /// was copied.
    Block { original_indent_columns: Vec<u32> },
}

impl AutoindentMode {
    /// The columns of a mode that indents lines together.
    pub open spec fn columns(&self) -> Option<Seq<u32>> {
        match self {
            AutoindentMode::EachLine => None,
            AutoindentMode::Block { original_indent_columns } => Some(original_indent_columns@),
        }
    }
}

impl Sortable<()> for BufferEdit {
    open spec fn comparable(context: ()) -> bool {
        true
    }

    open spec fn belongs_before(self, other: Self, context: ()) -> bool {
        self.range.start < other.range.start
    }

    fn is_before(&self, other: &Self, context: &()) -> (r: bool) {
        self.range.start < other.range.start
    }

    proof fn lemma_weak_order(a: Self, b: Self, c: Self, context: ()) {
    }
}

/// The edits with one more, which goes into the last where it touches it.
pub open spec fn with_edit(edits: Seq<BufferEdit>, edit: BufferEdit) -> Seq<BufferEdit> {
    if edits.len() > 0 && edits.last().range.end >= edit.range.start {
        let last = edits.last();
        let end = if edit.range.end >= last.range.end {
            edit.range.end
        } else {
            last.range.end
        };
        edits.drop_last().push(
            BufferEdit {
                range: Range { start: last.range.start, end },
                is_insertion: last.is_insertion || edit.is_insertion,
                ..last
            },
        )
    } else {
        edits.push(edit)
    }
}

/// The edits, those that touch made one.
pub open spec fn merged(edits: Seq<BufferEdit>) -> Seq<BufferEdit>
    decreases edits.len(),
{
    if edits.len() == 0 {
        seq![]
    } else {
        with_edit(merged(edits.drop_last()), edits.last())
    }
}

/// The edits of one buffer in order, those that touch made one.
pub open spec fn settled(edits: Seq<BufferEdit>) -> Seq<BufferEdit> {
    merged(in_order(edits, ()))
}

/// Whether edits are edits of a text of this length.
pub open spec fn edits_fit(edits: Seq<BufferEdit>, len: int) -> bool {
    forall|k: int|
        0 <= k < edits.len() ==> (#[trigger] edits[k]).range.start <= edits[k].range.end <= len
}

/// Whether a gap lies between any two of the edits.
pub open spec fn apart(edits: Seq<BufferEdit>) -> bool {
    forall|i: int, j: int|
        0 <= i < j < edits.len() ==> (#[trigger] edits[i]).range.end < (
        #[trigger] edits[j]).range.start
}

/// Whether the range of an edit lies within one of the edits.
pub open spec fn covered(edits: Seq<BufferEdit>, edit: BufferEdit) -> bool {
    exists|k: int| 0 <= k < edits.len() && covers(#[trigger] edits[k], edit)
}

pub open spec fn covers(outer: BufferEdit, inner: BufferEdit) -> bool {
    outer.range.start <= inner.range.start && inner.range.end <= outer.range.end
}

/// Edits that are merged in order lie apart, are edits of the same text, and
/// cover every edit that went in.
pub proof fn lemma_merged(edits: Seq<BufferEdit>, len: int)
    requires
        edits_fit(edits, len),
        is_in_order(edits, ()),
    ensures
        apart(merged(edits)),
        edits_fit(merged(edits), len),
        merged(edits).len() <= edits.len(),
        edits.len() > 0 ==> merged(edits).len() > 0 && merged(edits).last().range.start
            <= edits.last().range.start,
        forall|k: int| 0 <= k < edits.len() ==> covered(merged(edits), #[trigger] edits[k]),
    decreases edits.len(),
{
    if edits.len() > 0 {
        let front = edits.drop_last();
        let last = edits.last();
        assert(is_in_order(front, ())) by {
            assert forall|i: int, j: int| 0 <= i < j < front.len() implies !(
            #[trigger] front[j]).belongs_before(#[trigger] front[i], ()) by {
                assert(!edits[j].belongs_before(edits[i], ()));
            }
        }
        assert forall|k: int| 0 <= k < front.len() implies (#[trigger] front[k]).range.start
            <= front[k].range.end <= len by {
            assert(edits[k].range.start <= edits[k].range.end);
        }
        lemma_merged(front, len);
        let before = merged(front);
        let after = merged(edits);
        assert(edits[edits.len() - 1] == last);
        if front.len() > 0 {
            assert(edits[front.len() - 1] == front.last());
            assert(!last.belongs_before(front.last(), ()));
        }
        assert forall|k: int| 0 <= k < edits.len() implies covered(
            after,
            #[trigger] edits[k],
        ) by {
            if k < front.len() {
                assert(covered(before, front[k]));
                let m = choose|m: int| 0 <= m < before.len() && covers(
                    #[trigger] before[m],
                    front[k],
                );
                assert(covers(after[m], edits[k]));
            } else {
                assert(covers(after[after.len() - 1], last));
            }
        }
    }
}

/// The deletions among settled edits, held by anchors of the buffer.
pub open spec fn deletions_of(
    edits: Seq<BufferEdit>,
    buffer: BufferSnapshot,
) -> Seq<Range<TextAnchor>>
    decreases edits.len(),
{
    if edits.len() == 0 {
        seq![]
    } else {
        let rest = deletions_of(edits.drop_last(), buffer);
        let edit = edits.last();
        if !edit.is_insertion && edit.range.start < edit.range.end {
            rest.push(anchors_before(edit.range, buffer))
        } else {
            rest
        }
    }
}

/// The anchors before both ends of a range.
pub open spec fn anchors_before(range: Range<usize>, buffer: BufferSnapshot) -> Range<TextAnchor> {
    Range {
        start: buffer.anchor_spec(range.start as int, Bias::Left),
        end: buffer.anchor_spec(range.end as int, Bias::Left),
    }
}

/// The insertions among settled edits, held by anchors of the buffer.
pub open spec fn insertions_of(
    edits: Seq<BufferEdit>,
    buffer: BufferSnapshot,
) -> Seq<(Range<TextAnchor>, String)>
    decreases edits.len(),
{
    if edits.len() == 0 {
        seq![]
    } else {
        let rest = insertions_of(edits.drop_last(), buffer);
        let edit = edits.last();
        if edit.is_insertion {
            rest.push((anchors_before(edit.range, buffer), edit.new_text))
        } else {
            rest
        }
    }
}

/// The columns that the text of the insertions was copied from.
pub open spec fn columns_of(edits: Seq<BufferEdit>) -> Seq<u32>
    decreases edits.len(),
{
    if edits.len() == 0 {
        seq![]
    } else {
        let rest = columns_of(edits.drop_last());
        if edits.last().is_insertion {
            rest.push(edits.last().original_indent_column)
        } else {
            rest
        }
    }
}

/// What one buffer is asked to do: first to delete, then to insert.
#[derive(Debug)]
pub struct BufferChange {
    pub buffer_id: BufferId,
    pub deletions: Vec<Range<TextAnchor>>,
    pub deletion_autoindent_mode: Option<AutoindentMode>,
    pub insertions: Vec<(Range<TextAnchor>, String)>,
    pub insertion_autoindent_mode: Option<AutoindentMode>,
}

/// What an edit of a multibuffer asks of its buffers.
#[derive(Debug)]
pub enum EditPlan {
    Nothing,
    /// The only buffer takes the edits as they are.
    Singleton {
        buffer_id: BufferId,
        edits: Vec<(Range<usize>, String)>,
        autoindent_mode: Option<AutoindentMode>,
    },
    Buffers(Vec<BufferChange>),
}

/// Whether a mode is the mode asked for, with these columns where it indents
/// lines together.
pub open spec fn is_mode(
    mode: Option<AutoindentMode>,
    asked: Option<AutoindentMode>,
    columns: Seq<u32>,
) -> bool {
    match asked {
        None => mode is None,
        Some(asked) => mode matches Some(mode) && match asked.columns() {
            None => mode.columns() is None,
            Some(_) => mode.columns() == Some(columns),
        },
    }
}

/// Whether a change asks a buffer for settled edits.
pub open spec fn asks_for(
    change: BufferChange,
    edits: Seq<BufferEdit>,
    buffer: BufferSnapshot,
    mode: Option<AutoindentMode>,
) -> bool {
    &&& change.deletions@ == deletions_of(edits, buffer)
    &&& change.insertions@ == insertions_of(edits, buffer)
    &&& is_mode(change.deletion_autoindent_mode, mode, seq![])
    &&& is_mode(change.insertion_autoindent_mode, mode, columns_of(edits))
}

/// The buffer with an identifier.
pub open spec fn buffer_with_id(states: Seq<BufferState>, buffer_id: BufferId) -> BufferSnapshot {
    let s = choose|s: int|
        0 <= s < states.len() && (#[trigger] states[s]).buffer.remote_id == buffer_id;
    *states[s].buffer
}

/// Whether changes ask each buffer for the edits that were made of it, and no other
/// buffer for any.
pub open spec fn changes_ask_for(
    changes: Seq<BufferChange>,
    made: Seq<(BufferId, BufferEdit)>,
    states: Seq<BufferState>,
    mode: Option<AutoindentMode>,
) -> bool {
    &&& forall|a: int, b: int|
        0 <= a < b < changes.len() ==> (#[trigger] changes[a]).buffer_id != (
        #[trigger] changes[b]).buffer_id
    &&& forall|a: int|
        0 <= a < changes.len() ==> asks_for(
            #[trigger] changes[a],
            settled(items_of(made, changes[a].buffer_id)),
            buffer_with_id(states, changes[a].buffer_id),
            mode,
        )
    &&& forall|a: int|
        0 <= a < changes.len() ==> items_of(made, (#[trigger] changes[a]).buffer_id).len() > 0
    &&& forall|k: int| 0 <= k < made.len() ==> asks_buffer(changes, (#[trigger] made[k]).0)
}

/// Whether one of the changes is of a buffer.
pub open spec fn asks_buffer(changes: Seq<BufferChange>, buffer_id: BufferId) -> bool {
    exists|a: int| 0 <= a < changes.len() && (#[trigger] changes[a]).buffer_id == buffer_id
}

/// Whether an edit is one of a buffer that some excerpt shows.
pub open spec fn is_shown(es: Seq<Excerpt>, made: (BufferId, BufferEdit)) -> bool {
    exists|i: int| shows_edit(es, i, made)
}

/// Whether an edit is one of the buffer that the `i`-th excerpt shows.
pub open spec fn shows_edit(es: Seq<Excerpt>, i: int, made: (BufferId, BufferEdit)) -> bool {
    &&& 0 <= i < es.len()
    &&& es[i].buffer_id == made.0
    &&& made.1.range.start <= made.1.range.end <= es[i].buffer.bytes().len()
}

proof fn lemma_covered_shown(
    es: Seq<Excerpt>,
    from: int,
    to: int,
    new_text: String,
    column: u32,
    k: int,
)
    requires
        excerpts_wf(es),
        0 <= from,
        to <= es.len(),
        0 <= k < covered_edits(es, from, to, new_text, column).len(),
    ensures
        is_shown(es, covered_edits(es, from, to, new_text, column)[k]),
    decreases to - from,
{
    let made = covered_edits(es, from, to, new_text, column);
    if from < to {
        if k < made.len() - 1 {
            lemma_covered_shown(es, from, to - 1, new_text, column, k);
        } else {
            let e = es[to - 1];
            assert(e.wf());
            assert(e.buffer.wf());
            assert(shows_edit(es, to - 1, made[k]));
        }
    }
}

proof fn lemma_edit_shown(
    es: Seq<Excerpt>,
    range: Range<usize>,
    new_text: String,
    column: u32,
    k: int,
)
    requires
        excerpts_wf(es),
        es.len() > 0,
        range.start <= range.end <= excerpts_text(es).len(),
        0 <= k < edits_of_edit(es, range, new_text, column).len(),
    ensures
        is_shown(es, edits_of_edit(es, range, new_text, column)[k]),
{
    let i = edited_index(es, range.start);
    let j = edited_index(es, range.end);
    lemma_edited_index(es, range.start);
    lemma_edited_index(es, range.end);
    lemma_edited_index_grows(es, range.start, range.end);
    let made = edits_of_edit(es, range, new_text, column);
    assert(es[i].wf() && es[i].buffer.wf() && es[j].wf() && es[j].buffer.wf());
    if k == 0 {
        assert(shows_edit(es, i, made[k]));
    } else if k == 1 {
        assert(shows_edit(es, j, made[k]));
    } else {
        assert(made[k] == covered_edits(es, i + 1, j, new_text, column)[k - 2]);
        lemma_covered_shown(es, i + 1, j, new_text, column, k - 2);
    }
}

/// Edits of a multibuffer come to edits of the buffers that it shows.
proof fn lemma_edits_shown(
    es: Seq<Excerpt>,
    edits: Seq<(Range<usize>, String)>,
    columns: Seq<u32>,
    k: int,
)
    requires
        excerpts_wf(es),
        edits.len() > 0 ==> es.len() > 0,
        forall|m: int|
            0 <= m < edits.len() ==> (#[trigger] edits[m]).0.start <= edits[m].0.end
                <= excerpts_text(es).len(),
        0 <= k < edits_of_edits(es, edits, columns).len(),
    ensures
        is_shown(es, edits_of_edits(es, edits, columns)[k]),
    decreases edits.len(),
{
    if edits.len() > 0 {
        let n = edits.len() - 1;
        let front = edits_of_edits(es, edits.drop_last(), columns);
        let column = column_of(columns, n);
        assert(edits[n].0.start <= edits[n].0.end);
        if k < front.len() {
            assert forall|m: int| 0 <= m < edits.drop_last().len() implies (
            #[trigger] edits.drop_last()[m]).0.start <= edits.drop_last()[m].0.end
                <= excerpts_text(es).len() by {
                assert(edits[m].0.start <= edits[m].0.end);
            }
            lemma_edits_shown(es, edits.drop_last(), columns, k);
        } else {
            lemma_edit_shown(es, edits[n].0, edits[n].1, column, k - front.len());
        }
    }
}

/// The edits of one buffer are edits of its text.
proof fn lemma_edits_of_buffer_fit(
    es: Seq<Excerpt>,
    states: Seq<BufferState>,
    made: Seq<(BufferId, BufferEdit)>,
    s: int,
)
    requires
        excerpts_wf(es),
        buffers_wf(es, states),
        0 <= s < states.len(),
        forall|k: int| 0 <= k < made.len() ==> is_shown(es, #[trigger] made[k]),
    ensures
        edits_fit(
            items_of(made, states[s].buffer.remote_id),
            states[s].buffer.bytes().len() as int,
        ),
    decreases made.len(),
{
    reveal(buffers_wf);
    if made.len() > 0 {
        let front = made.drop_last();
        assert forall|k: int| 0 <= k < front.len() implies is_shown(es, #[trigger] front[k]) by {
            assert(is_shown(es, made[k]));
        }
        lemma_edits_of_buffer_fit(es, states, front, s);
        assert(is_shown(es, made[made.len() - 1]) && made[made.len() - 1] == made.last());
        let i = choose|i: int| shows_edit(es, i, made.last());
        assert(has_state(states, es[i]));
        let t = choose|t: int| state_of(states, t, es[i]);
        assert(es[i].wf());
        if made.last().0 == states[s].buffer.remote_id && t != s {
            if t < s {
                assert(states[t].buffer.remote_id != states[s].buffer.remote_id);
            } else {
                assert(states[s].buffer.remote_id != states[t].buffer.remote_id);
            }
        }
    }
}

/// A buffer that was edited is one that the multibuffer knows.
proof fn lemma_made_known(
    es: Seq<Excerpt>,
    states: Seq<BufferState>,
    made: Seq<(BufferId, BufferEdit)>,
    buffer_id: BufferId,
)
    requires
        excerpts_wf(es),
        buffers_wf(es, states),
        items_of(made, buffer_id).len() > 0,
        forall|k: int| 0 <= k < made.len() ==> is_shown(es, #[trigger] made[k]),
    ensures
        exists|s: int|
            0 <= s < states.len() && (#[trigger] states[s]).buffer.remote_id == buffer_id,
    decreases made.len(),
{
    reveal(buffers_wf);
    let front = made.drop_last();
    if made.last().0 == buffer_id {
        assert(is_shown(es, made[made.len() - 1]) && made[made.len() - 1] == made.last());
        let i = choose|i: int| shows_edit(es, i, made.last());
        assert(has_state(states, es[i]));
        let t = choose|t: int| state_of(states, t, es[i]);
        assert(es[i].wf());
        assert(states[t].buffer.remote_id == buffer_id);
    } else {
        assert forall|k: int| 0 <= k < front.len() implies is_shown(es, #[trigger] front[k]) by {
            assert(is_shown(es, made[k]));
        }
        lemma_made_known(es, states, front, buffer_id);
    }
}

/// There is one buffer with an identifier.
pub proof fn lemma_buffer_with_id(states: Seq<BufferState>, s: int)
    requires
        states_distinct(states),
        0 <= s < states.len(),
    ensures
        buffer_with_id(states, states[s].buffer.remote_id) == *states[s].buffer,
{
    let id = states[s].buffer.remote_id;
    let t = choose|t: int|
        0 <= t < states.len() && (#[trigger] states[t]).buffer.remote_id == id;
    if t < s {
        assert(states[t].buffer.remote_id != states[s].buffer.remote_id);
    } else if s < t {
        assert(states[s].buffer.remote_id != states[t].buffer.remote_id);
    }
}

/// The edits of the buffer that an excerpt shows are edits of its text.
pub proof fn lemma_edits_of_excerpt_fit(
    multibuffer: &MultiBuffer,
    edits: Seq<(Range<usize>, String)>,
    columns: Seq<u32>,
    i: int,
)
    requires
        multibuffer.wf(),
        0 <= i < multibuffer.snapshot.excerpts@.len(),
        forall|k: int|
            0 <= k < edits.len() ==> (#[trigger] edits[k]).0.start <= edits[k].0.end
                <= multibuffer.snapshot.bytes().len(),
    ensures
        ({
            let es = multibuffer.snapshot.excerpts@;
            let id = es[i].buffer_id;
            let buffer = buffer_with_id(multibuffer.buffers@, id);
            &&& buffer == *es[i].buffer
            &&& edits_fit(
                items_of(edits_of_edits(es, edits, columns), id),
                buffer.bytes().len() as int,
            )
        }),
{
    let es = multibuffer.snapshot.excerpts@;
    let states = multibuffer.buffers@;
    let made = edits_of_edits(es, edits, columns);
    assert(es[i].wf());
    assert(has_state(states, es[i]) && states_distinct(states)) by {
        reveal(buffers_wf);
    }
    let s = choose|s: int| state_of(states, s, es[i]);
    lemma_buffer_with_id(states, s);
    assert forall|k: int| 0 <= k < made.len() implies is_shown(es, #[trigger] made[k]) by {
        lemma_edits_shown(es, edits, columns, k);
    }
    lemma_edits_of_buffer_fit(es, states, made, s);
}

/// Sorting keeps edits edits of the same text.
pub proof fn lemma_in_order_fit(edits: Seq<BufferEdit>, len: int)
    requires
        edits_fit(edits, len),
    ensures
        edits_fit(in_order(edits, ()), len),
        is_in_order(in_order(edits, ()), ()),
{
    lemma_in_order(edits, ());
    let sorted = in_order(edits, ());
    assert forall|k: int| 0 <= k < sorted.len() implies (#[trigger] sorted[k]).range.start
        <= sorted[k].range.end <= len by {
        lemma_in_order_from(edits, (), k);
        let m = choose|m: int| 0 <= m < edits.len() && edits[m] == sorted[k];
        assert(edits[m].range.start <= edits[m].range.end <= len);
    }
}

/// Settled edits of one buffer lie apart, and each edit lies within one.
pub proof fn lemma_settled(edits: Seq<BufferEdit>, len: int)
    requires
        edits_fit(edits, len),
    ensures
        apart(settled(edits)),
        edits_fit(settled(edits), len),
        forall|k: int| 0 <= k < edits.len() ==> covered(settled(edits), #[trigger] edits[k]),
{
    let sorted = in_order(edits, ());
    lemma_in_order_fit(edits, len);
    lemma_merged(sorted, len);
    lemma_in_order(edits, ());
    assert forall|k: int| 0 <= k < edits.len() implies covered(
        settled(edits),
        #[trigger] edits[k],
    ) by {
        broadcast use vstd::seq_lib::group_to_multiset_ensures;

        assert(edits.to_multiset().contains(edits[k]));
        assert(sorted.to_multiset().contains(edits[k]));
        assert(sorted.contains(edits[k]));
        let m = choose|m: int| 0 <= m < sorted.len() && sorted[m] == edits[k];
        assert(covered(merged(sorted), sorted[m]));
    }
}

/// Whether an offset lies in one of the ranges, or at an end of one.
pub open spec fn reaches(ranges: Seq<Range<usize>>, offset: int) -> bool {
    exists|k: int| reaches_at(ranges, k, offset)
}

pub open spec fn reaches_at(ranges: Seq<Range<usize>>, k: int, offset: int) -> bool {
    0 <= k < ranges.len() && ranges[k].start <= offset <= ranges[k].end
}

proof fn lemma_merged_reach(edits: Seq<BufferEdit>, len: int, offset: int)
    requires
        edits_fit(edits, len),
        is_in_order(edits, ()),
    ensures
        reaches(ranges_of(merged(edits)), offset) == reaches(ranges_of(edits), offset),
    decreases edits.len(),
{
    if edits.len() > 0 {
        let front = edits.drop_last();
        let last = edits.last();
        assert(is_in_order(front, ())) by {
            assert forall|i: int, j: int| 0 <= i < j < front.len() implies !(
            #[trigger] front[j]).belongs_before(#[trigger] front[i], ()) by {
                assert(!edits[j].belongs_before(edits[i], ()));
            }
        }
        assert forall|k: int| 0 <= k < front.len() implies (#[trigger] front[k]).range.start
            <= front[k].range.end <= len by {
            assert(edits[k].range.start <= edits[k].range.end);
        }
        lemma_merged(front, len);
        lemma_merged_reach(front, len, offset);
        let n = front.len() as int;
        let before = merged(front);
        let after = merged(edits);
        let m = before.len() as int;
        let from = ranges_of(edits);
        let to = ranges_of(after);
        assert(edits[n] == last);
        assert(last.range.start <= last.range.end);
        if n > 0 {
            assert(edits[n - 1] == front.last());
            assert(!last.belongs_before(front.last(), ()));
            assert(before[m - 1].range.start <= before[m - 1].range.end);
        }
        if reaches(from, offset) {
            let k = choose|k: int| reaches_at(from, k, offset);
            if k < n {
                assert(reaches_at(ranges_of(front), k, offset));
                let j = choose|j: int| reaches_at(ranges_of(before), j, offset);
                assert(reaches_at(to, j, offset));
            } else {
                assert(reaches_at(to, after.len() - 1, offset));
            }
        }
        if reaches(to, offset) {
            let j = choose|j: int| reaches_at(to, j, offset);
            if j < m && reaches_at(ranges_of(before), j, offset) {
                let k = choose|k: int| reaches_at(ranges_of(front), k, offset);
                assert(reaches_at(from, k, offset));
            } else {
                assert(reaches_at(from, n, offset));
            }
        }
    }
}

/// The settled edits of one buffer, and so the ranges that it is asked to indent,
/// reach what its edits reach and nothing else.
pub proof fn lemma_settled_reach(edits: Seq<BufferEdit>, len: int, offset: int)
    requires
        edits_fit(edits, len),
    ensures
        reaches(ranges_of(settled(edits)), offset) == reaches(ranges_of(edits), offset),
{
    let sorted = in_order(edits, ());
    lemma_in_order_fit(edits, len);
    lemma_in_order(edits, ());
    lemma_merged_reach(sorted, len, offset);
    if reaches(ranges_of(sorted), offset) {
        let k = choose|k: int| reaches_at(ranges_of(sorted), k, offset);
        lemma_in_order_from(edits, (), k);
        let m = choose|m: int| 0 <= m < edits.len() && edits[m] == sorted[k];
        assert(reaches_at(ranges_of(edits), m, offset));
    }
    if reaches(ranges_of(edits), offset) {
        broadcast use vstd::seq_lib::group_to_multiset_ensures;

        let k = choose|k: int| reaches_at(ranges_of(edits), k, offset);
        assert(edits.to_multiset().contains(edits[k]));
        assert(sorted.to_multiset().contains(edits[k]));
        assert(sorted.contains(edits[k]));
        let m = choose|m: int| 0 <= m < sorted.len() && sorted[m] == edits[k];
        assert(reaches_at(ranges_of(sorted), m, offset));
    }
}

/// The edits of one buffer in order, those that touch made one.
fn settle(edits: Vec<BufferEdit>) -> (r: Vec<BufferEdit>)
    ensures
        r@ == settled(edits@),
{
    let sorted = sort(edits, &());
    let ghost all = sorted@;
    let mut edits: Vec<BufferEdit> = Vec::new();
    let mut k: usize = 0;
    assert(all.take(0) =~= Seq::<BufferEdit>::empty());
    while k < sorted.len()
        invariant
            k <= all.len(),
            all == sorted@,
            edits@ == merged(all.take(k as int)),
        decreases all.len() - k,
    {
        let edit = &sorted[k];
        let ghost before = edits@;
        proof {
            assert(all.take(k + 1).drop_last() =~= all.take(k as int));
            assert(all.take(k + 1).last() == all[k as int]);
        }
        if edits.len() > 0 && edits[edits.len() - 1].range.end >= edit.range.start {
            let last: usize = edits.len() - 1;
            if edit.range.end >= edits[last].range.end {
                edits[last].range = edits[last].range.start..edit.range.end;
            }
            edits[last].is_insertion = edits[last].is_insertion || edit.is_insertion;
            assert(edits@ =~= with_edit(before, *edit));
        } else {
            edits.push(
                BufferEdit {
                    range: edit.range.start..edit.range.end,
                    new_text: edit.new_text.clone(),
                    is_insertion: edit.is_insertion,
                    original_indent_column: edit.original_indent_column,
                },
            );
            assert(edits@ =~= with_edit(before, *edit));
        }
        k = k + 1;
    }
    assert(all.take(all.len() as int) =~= all);
    edits
}

/// What a buffer is asked to do for settled edits.
fn change_for(
    buffer: &BufferSnapshot,
    edits: &Vec<BufferEdit>,
    mode: &Option<AutoindentMode>,
) -> (r: BufferChange)
    requires
        buffer.wf(),
        edits_fit(edits@, buffer.bytes().len() as int),
    ensures
        r.buffer_id == buffer.remote_id,
        asks_for(r, edits@, *buffer, *mode),
{
    let mut deletions: Vec<Range<TextAnchor>> = Vec::new();
    let mut insertions: Vec<(Range<TextAnchor>, String)> = Vec::new();
    let mut columns: Vec<u32> = Vec::new();
    let mut k: usize = 0;
    assert(edits@.take(0) =~= Seq::<BufferEdit>::empty());
    while k < edits.len()
        invariant
            k <= edits@.len(),
            buffer.wf(),
            edits_fit(edits@, buffer.bytes().len() as int),
            deletions@ == deletions_of(edits@.take(k as int), *buffer),
            insertions@ == insertions_of(edits@.take(k as int), *buffer),
            columns@ == columns_of(edits@.take(k as int)),
        decreases edits@.len() - k,
    {
        let edit = &edits[k];
        proof {
            assert(edits@.take(k + 1).drop_last() =~= edits@.take(k as int));
            assert(edits@.take(k + 1).last() == edits@[k as int]);
        }
        let range = buffer.anchor_before(edit.range.start)..buffer.anchor_before(edit.range.end);
        if edit.is_insertion {
            columns.push(edit.original_indent_column);
            insertions.push((range, edit.new_text.clone()));
        } else if edit.range.start < edit.range.end {
            deletions.push(range);
        }
        k = k + 1;
    }
    assert(edits@.take(edits@.len() as int) =~= edits@);
    let (deletion_autoindent_mode, insertion_autoindent_mode) = match mode {
        None => (None, None),
        Some(AutoindentMode::EachLine) => (
            Some(AutoindentMode::EachLine),
            Some(AutoindentMode::EachLine),
        ),
        Some(AutoindentMode::Block { .. }) => (
            Some(AutoindentMode::Block { original_indent_columns: Vec::new() }),
            Some(AutoindentMode::Block { original_indent_columns: columns }),
        ),
    };
    BufferChange {
        buffer_id: buffer.remote_id,
        deletions,
        deletion_autoindent_mode,
        insertions,
        insertion_autoindent_mode,
    }
}

/// The offsets of an edit's range, the smaller one first.
pub open spec fn offsets_of<S: ToOffset>(
    range: Range<S>,
    snapshot: MultiBufferSnapshot,
) -> Range<usize> {
    let start = range.start.offset(snapshot) as usize;
    let end = range.end.offset(snapshot) as usize;
    if start > end {
        Range { start: end, end: start }
    } else {
        Range { start, end }
    }
}

/// The edits, their ranges as offsets.
pub open spec fn offset_edits<S: ToOffset>(
    edits: Seq<(Range<S>, String)>,
    snapshot: MultiBufferSnapshot,
) -> Seq<(Range<usize>, String)> {
    edits.map_values(|edit: (Range<S>, String)| (offsets_of(edit.0, snapshot), edit.1))
}

/// The offsets of a range, the smaller one first.
fn ordered_offsets<S: ToOffset>(range: &Range<S>, snapshot: &MultiBufferSnapshot) -> (r:
    Range<usize>)
    requires
        snapshot.wf(),
        range.start.is_position(*snapshot),
        range.end.is_position(*snapshot),
    ensures
        r == offsets_of(*range, *snapshot),
        r.start <= r.end <= snapshot.bytes().len(),
{
    let start: usize = range.start.to_offset(snapshot);
    let end: usize = range.end.to_offset(snapshot);
    if start > end {
        end..start
    } else {
        start..end
    }
}

impl MultiBufferSnapshot {
    /// Whether the ranges of edits are ranges of the multibuffer.
    pub open spec fn can_edit<S: ToOffset>(&self, edits: Seq<(Range<S>, String)>) -> bool {
        forall|k: int|
            0 <= k < edits.len() ==> (#[trigger] edits[k]).0.start.is_position(*self)
                && edits[k].0.end.is_position(*self)
    }

    fn edits_by_offset<S: ToOffset>(&self, edits: &Vec<(Range<S>, String)>) -> (r: Vec<
        (Range<usize>, String),
    >)
        requires
            self.wf(),
            self.can_edit(edits@),
        ensures
            r@ == offset_edits(edits@, *self),
            forall|k: int|
                0 <= k < r@.len() ==> (#[trigger] r@[k]).0.start <= r@[k].0.end
                    <= self.bytes().len(),
    {
        let ghost all = offset_edits(edits@, *self);
        let mut r: Vec<(Range<usize>, String)> = Vec::new();
        let mut k: usize = 0;
        while k < edits.len()
            invariant
                k <= edits@.len(),
                self.wf(),
                self.can_edit(edits@),
                all == offset_edits(edits@, *self),
                r@ == all.take(k as int),
                forall|m: int|
                    0 <= m < r@.len() ==> (#[trigger] r@[m]).0.start <= r@[m].0.end
                        <= self.bytes().len(),
            decreases edits@.len() - k,
        {
            let (range, new_text) = &edits[k];
            assert(edits@[k as int].0.start.is_position(*self));
            r.push((ordered_offsets(range, self), new_text.clone()));
            assert(r@ =~= all.take(k + 1));
            k = k + 1;
        }
        assert(all.take(edits@.len() as int) =~= all);
        r
    }
}

/// The columns that a mode brings.
pub open spec fn mode_columns(mode: Option<AutoindentMode>) -> Seq<u32> {
    match mode {
        Some(mode) => match mode.columns() {
            Some(columns) => columns,
            None => seq![],
        },
        None => seq![],
    }
}

impl MultiBuffer {
    /// Whether `self` is `before`, and the excerpts that were edited announced.
    pub open spec fn announces_edits(&self, before: &MultiBuffer, ids: Seq<ExcerptId>) -> bool {
        &&& *self == (MultiBuffer { events: self.events, ..*before })
        &&& self.events@.len() == before.events@.len() + 1
        &&& self.events@.drop_last() == before.events@
        &&& self.events@.last() matches Event::ExcerptsEdited { ids: edited } && edited@ == ids
    }

    /// Whether nothing can be edited.
    pub fn read_only(&self) -> (r: bool)
        ensures
            r == (self.capability == Capability::ReadOnly),
    {
        self.capability == Capability::ReadOnly
    }

    /// The buffer, where the multibuffer shows a single one.
    pub fn as_singleton(&self) -> (r: Option<BufferId>)
        requires
            self.singleton ==> self.buffers@.len() > 0,
        ensures
            r == if self.singleton {
                Some(self.buffers@[0].buffer.remote_id)
            } else {
                None
            },
    {
        if self.singleton {
            Some(self.buffers[0].buffer.remote_id)
        } else {
            None
        }
    }

    /// Where there are buffers there are excerpts.
    proof fn lemma_has_excerpts(&self)
        requires
            self.wf(),
            self.buffers@.len() > 0,
        ensures
            self.snapshot.excerpts@.len() > 0,
    {
        reveal(buffers_wf);
        assert(state_fits(self.snapshot.excerpts@, self.buffers@[0]));
        let id = self.buffers@[0].buffer.remote_id;
        assert(digits_of(self.buffers@[0].excerpts@).len() > 0);
        assert(locators_of(self.snapshot.excerpts@, id).len() > 0);
    }

    /// Whether a plan asks the buffers of `before` for edits, and `self` is `before`
    /// with that announced.
    pub open spec fn has_planned<S: ToOffset>(
        &self,
        before: &MultiBuffer,
        edits: Seq<(Range<S>, String)>,
        autoindent_mode: Option<AutoindentMode>,
        plan: EditPlan,
    ) -> bool {
        let offset_edits = offset_edits(edits, before.snapshot);
        let es = before.snapshot.excerpts@;
        if before.capability == Capability::ReadOnly || before.buffers@.len() == 0 {
            plan is Nothing && *self == *before
        } else if before.singleton {
            &&& plan matches EditPlan::Singleton {
                buffer_id,
                edits: asked,
                autoindent_mode: mode,
            } && buffer_id == before.buffers@[0].buffer.remote_id && asked@ == offset_edits
                && mode == autoindent_mode
            &&& self.announces_edits(before, ids_of(es))
        } else {
            &&& plan matches EditPlan::Buffers(changes) && changes_ask_for(
                changes@,
                edits_of_edits(es, offset_edits, mode_columns(autoindent_mode)),
                before.buffers@,
                autoindent_mode,
            )
            &&& self.announces_edits(before, ids_of_edits(es, offset_edits))
        }
    }

    /// What to ask of the buffers, so that the ranges of the multibuffer hold the
    /// new texts.
    pub fn edit<S: ToOffset>(
        &mut self,
        edits: &Vec<(Range<S>, String)>,
        autoindent_mode: Option<AutoindentMode>,
    ) -> (r: EditPlan)
        requires
            old(self).wf(),
            old(self).snapshot.can_edit(edits@),
        ensures
            final(self).wf(),
            final(self).has_planned(old(self), edits@, autoindent_mode, r),
    {
        if self.read_only() || self.buffers.len() == 0 {
            return EditPlan::Nothing;
        }
        let ghost before = *self;
        proof {
            self.lemma_has_excerpts();
        }
        let edits = self.snapshot.edits_by_offset(edits);
        if let Some(buffer_id) = self.as_singleton() {
            let ids = self.excerpt_ids();
            self.events.push(Event::ExcerptsEdited { ids });
            assert(self.events@.drop_last() =~= before.events@);
            return EditPlan::Singleton { buffer_id, edits, autoindent_mode };
        }
        let (changes, ids) = self.changes_for(&edits, &autoindent_mode);
        self.events.push(Event::ExcerptsEdited { ids });
        assert(self.events@.drop_last() =~= before.events@);
        EditPlan::Buffers(changes)
    }

    /// What to ask of each buffer, and the excerpts that are edited.
    fn changes_for(
        &self,
        edits: &Vec<(Range<usize>, String)>,
        mode: &Option<AutoindentMode>,
    ) -> (r: (Vec<BufferChange>, Vec<ExcerptId>))
        requires
            self.wf(),
            self.snapshot.excerpts@.len() > 0,
            forall|k: int|
                0 <= k < edits@.len() ==> (#[trigger] edits@[k]).0.start <= edits@[k].0.end
                    <= self.snapshot.bytes().len(),
        ensures
            changes_ask_for(
                r.0@,
                edits_of_edits(self.snapshot.excerpts@, edits@, mode_columns(*mode)),
                self.buffers@,
                *mode,
            ),
            r.1@ == ids_of_edits(self.snapshot.excerpts@, edits@),
    {
        let ghost es = self.snapshot.excerpts@;
        let ghost states = self.buffers@;
        let no_columns: Vec<u32> = Vec::new();
        let columns: &Vec<u32> = match mode {
            Some(AutoindentMode::Block { original_indent_columns }) => original_indent_columns,
            _ => &no_columns,
        };
        assert(columns@ =~= mode_columns(*mode));
        let (buffer_edits, ids) = self.snapshot.convert_edits_to_buffer_edits(edits, columns);
        let ghost made = edits_of_edits(es, edits@, columns@);
        let ghost gs = buffer_edits@;
        proof {
            assert forall|k: int| 0 <= k < made.len() implies is_shown(es, #[trigger] made[k]) by {
                lemma_edits_shown(es, edits@, columns@, k);
            }
        }
        let mut changes: Vec<BufferChange> = Vec::new();
        let mut a: usize = 0;
        while a < buffer_edits.len()
            invariant
                a <= gs.len(),
                gs == buffer_edits@,
                self.wf(),
                es == self.snapshot.excerpts@,
                states == self.buffers@,
                sorted_out(gs, made),
                forall|k: int| 0 <= k < made.len() ==> is_shown(es, #[trigger] made[k]),
                changes@.len() == a,
                forall|b: int|
                    0 <= b < a ==> {
                        &&& (#[trigger] changes@[b]).buffer_id == gs[b].buffer_id
                        &&& asks_for(
                            changes@[b],
                            settled(items_of(made, changes@[b].buffer_id)),
                            buffer_with_id(states, changes@[b].buffer_id),
                            *mode,
                        )
                    },
            decreases gs.len() - a,
        {
            let group = &buffer_edits[a];
            proof {
                assert(gs[a as int].items@ == items_of(made, gs[a as int].buffer_id));
                lemma_made_known(es, states, made, group.buffer_id);
            }
            if let Some(s) = self.buffer_state_index(group.buffer_id) {
                let buffer = &self.buffers[s].buffer;
                proof {
                    assert(state_fits(es, states[s as int]) && states_distinct(states)) by {
                        reveal(buffers_wf);
                    }
                    lemma_buffer_with_id(states, s as int);
                    lemma_edits_of_buffer_fit(es, states, made, s as int);
                    lemma_settled(group.items@, buffer.bytes().len() as int);
                }
                let settled_edits = settle(copy_edits(&group.items));
                changes.push(change_for(buffer, &settled_edits, mode));
            }
            a = a + 1;
        }
        proof {
            let cs = changes@;
            assert forall|i: int, j: int| 0 <= i < j < cs.len() implies (
            #[trigger] cs[i]).buffer_id != (#[trigger] cs[j]).buffer_id by {
                assert(gs[i].buffer_id != gs[j].buffer_id);
            }
            assert forall|k: int| 0 <= k < made.len() implies asks_buffer(
                cs,
                (#[trigger] made[k]).0,
            ) by {
                assert(has_group(gs, made[k].0));
                let i = choose|i: int|
                    0 <= i < gs.len() && (#[trigger] gs[i]).buffer_id == made[k].0;
                assert(cs[i].buffer_id == made[k].0);
            }
        }
        (changes, ids)
    }
}

fn copy_edits(edits: &Vec<BufferEdit>) -> (r: Vec<BufferEdit>)
    ensures
        r@ == edits@,
{
    let mut r: Vec<BufferEdit> = Vec::new();
    let mut k: usize = 0;
    while k < edits.len()
        invariant
            k <= edits@.len(),
            r@ == edits@.take(k as int),
        decreases edits@.len() - k,
    {
        let edit = &edits[k];
        r.push(
            BufferEdit {
                range: edit.range.start..edit.range.end,
                new_text: edit.new_text.clone(),
                is_insertion: edit.is_insertion,
                original_indent_column: edit.original_indent_column,
            },
        );
        assert(r@ =~= edits@.take(k + 1));
        k = k + 1;
    }
    assert(edits@.take(edits@.len() as int) =~= edits@);
    r
}

/// What indenting ranges of a multibuffer asks of its buffers.
#[derive(Debug)]
pub enum AutoindentPlan {
    Nothing,
    /// The only buffer takes the ranges as they are.
    Singleton { buffer_id: BufferId, ranges: Vec<Range<usize>> },
    Buffers(Vec<(BufferId, Vec<Range<usize>>)>),
}

/// The ranges, as edits that put no text in.
pub open spec fn range_edits<S: ToOffset>(
    ranges: Seq<Range<S>>,
    snapshot: MultiBufferSnapshot,
    empty: String,
) -> Seq<(Range<usize>, String)> {
    ranges.map_values(|range: Range<S>| (offsets_of(range, snapshot), empty))
}

/// The ranges of edits.
pub open spec fn ranges_of(edits: Seq<BufferEdit>) -> Seq<Range<usize>> {
    edits.map_values(|edit: BufferEdit| edit.range)
}

/// Whether each buffer is asked to indent the ranges of its edits, those that
/// touch made one, and no other buffer is asked.
pub open spec fn asks_to_indent(
    plan: Seq<(BufferId, Vec<Range<usize>>)>,
    made: Seq<(BufferId, BufferEdit)>,
) -> bool {
    &&& forall|a: int, b: int|
        0 <= a < b < plan.len() ==> (#[trigger] plan[a]).0 != (#[trigger] plan[b]).0
    &&& forall|a: int|
        0 <= a < plan.len() ==> (#[trigger] plan[a]).1@ == ranges_of(
            settled(items_of(made, plan[a].0)),
        )
    &&& forall|a: int| 0 <= a < plan.len() ==> items_of(made, (#[trigger] plan[a]).0).len() > 0
    &&& forall|k: int| 0 <= k < made.len() ==> asks_buffer_to_indent(plan, (#[trigger] made[k]).0)
}

/// Whether a buffer is asked to indent something.
pub open spec fn asks_buffer_to_indent(
    plan: Seq<(BufferId, Vec<Range<usize>>)>,
    buffer_id: BufferId,
) -> bool {
    exists|a: int| 0 <= a < plan.len() && (#[trigger] plan[a]).0 == buffer_id
}

fn collect_ranges(edits: &Vec<BufferEdit>) -> (r: Vec<Range<usize>>)
    ensures
        r@ == ranges_of(edits@),
{
    let mut r: Vec<Range<usize>> = Vec::new();
    let mut k: usize = 0;
    while k < edits.len()
        invariant
            k <= edits@.len(),
            r@ == ranges_of(edits@).take(k as int),
        decreases edits@.len() - k,
    {
        r.push(edits[k].range.start..edits[k].range.end);
        assert(r@ =~= ranges_of(edits@).take(k + 1));
        k = k + 1;
    }
    assert(r@ =~= ranges_of(edits@));
    r
}

impl MultiBufferSnapshot {
    /// Whether ranges are ranges of the multibuffer.
    pub open spec fn are_ranges<S: ToOffset>(&self, ranges: Seq<Range<S>>) -> bool {
        forall|k: int|
            0 <= k < ranges.len() ==> (#[trigger] ranges[k]).start.is_position(*self)
                && ranges[k].end.is_position(*self)
    }

    fn ranges_by_offset<S: ToOffset>(&self, ranges: &Vec<Range<S>>, empty: &String) -> (r: Vec<
        (Range<usize>, String),
    >)
        requires
            self.wf(),
            self.are_ranges(ranges@),
        ensures
            r@ == range_edits(ranges@, *self, *empty),
            forall|k: int|
                0 <= k < r@.len() ==> (#[trigger] r@[k]).0.start <= r@[k].0.end
                    <= self.bytes().len(),
    {
        let ghost all = range_edits(ranges@, *self, *empty);
        let mut r: Vec<(Range<usize>, String)> = Vec::new();
        let mut k: usize = 0;
        while k < ranges.len()
            invariant
                k <= ranges@.len(),
                self.wf(),
                self.are_ranges(ranges@),
                all == range_edits(ranges@, *self, *empty),
                r@ == all.take(k as int),
                forall|m: int|
                    0 <= m < r@.len() ==> (#[trigger] r@[m]).0.start <= r@[m].0.end
                        <= self.bytes().len(),
            decreases ranges@.len() - k,
        {
            assert(ranges@[k as int].start.is_position(*self));
            r.push((ordered_offsets(&ranges[k], self), empty.clone()));
            assert(r@ =~= all.take(k + 1));
            k = k + 1;
        }
        assert(all.take(ranges@.len() as int) =~= all);
        r
    }
}

/// The ranges of edits of a multibuffer.
pub open spec fn edit_ranges(edits: Seq<(Range<usize>, String)>) -> Seq<Range<usize>> {
    edits.map_values(|edit: (Range<usize>, String)| edit.0)
}

impl MultiBuffer {
    /// What to ask of the buffers, so that ranges of the multibuffer are indented.
    pub fn autoindent_ranges<S: ToOffset>(&mut self, ranges: &Vec<Range<S>>) -> (r:
        AutoindentPlan)
        requires
            old(self).wf(),
            old(self).snapshot.are_ranges(ranges@),
        ensures
            final(self).wf(),
            ({
                let es = old(self).snapshot.excerpts@;
                if old(self).capability == Capability::ReadOnly || old(self).buffers@.len() == 0 {
                    r is Nothing && *final(self) == *old(self)
                } else if old(self).singleton {
                    &&& r matches AutoindentPlan::Singleton { buffer_id, ranges: plan }
                        && buffer_id == old(self).buffers@[0].buffer.remote_id
                        && plan@.len() == ranges@.len() && forall|k: int|
                        0 <= k < ranges@.len() ==> #[trigger] plan@[k] == offsets_of(
                            ranges@[k],
                            old(self).snapshot,
                        )
                    &&& final(self).announces_edits(old(self), ids_of(es))
                } else {
                    exists|empty: String|
                        {
                            let edits = #[trigger] range_edits(
                                ranges@,
                                old(self).snapshot,
                                empty,
                            );
                            &&& empty@ == Seq::<char>::empty()
                            &&& r matches AutoindentPlan::Buffers(plan) && asks_to_indent(
                                plan@,
                                edits_of_edits(es, edits, seq![]),
                            )
                            &&& final(self).announces_edits(old(self), ids_of_edits(es, edits))
                        }
                }
            }),
    {
        if self.read_only() || self.buffers.len() == 0 {
            return AutoindentPlan::Nothing;
        }
        let ghost before = *self;
        proof {
            self.lemma_has_excerpts();
        }
        let empty = String::new();
        let edits = self.snapshot.ranges_by_offset(ranges, &empty);
        if let Some(buffer_id) = self.as_singleton() {
            let mut plan: Vec<Range<usize>> = Vec::new();
            let mut k: usize = 0;
            while k < edits.len()
                invariant
                    k <= edits@.len(),
                    plan@ == edit_ranges(edits@).take(k as int),
                decreases edits@.len() - k,
            {
                plan.push(edits[k].0.start..edits[k].0.end);
                assert(plan@ =~= edit_ranges(edits@).take(k + 1));
                k = k + 1;
            }
            assert(plan@ =~= edit_ranges(edits@));
            let ids = self.excerpt_ids();
            self.events.push(Event::ExcerptsEdited { ids });
            assert(self.events@.drop_last() =~= before.events@);
            return AutoindentPlan::Singleton { buffer_id, ranges: plan };
        }
        let columns: Vec<u32> = Vec::new();
        let (buffer_edits, ids) = self.snapshot.convert_edits_to_buffer_edits(&edits, &columns);
        let plan = ranges_to_indent(
            &buffer_edits,
            Ghost(edits_of_edits(self.snapshot.excerpts@, edits@, seq![])),
        );
        self.events.push(Event::ExcerptsEdited { ids });
        assert(self.events@.drop_last() =~= before.events@);
        assert(edits@ == range_edits(ranges@, before.snapshot, empty));
        AutoindentPlan::Buffers(plan)
    }
}

/// The ranges of the edits of each buffer, those that touch made one.
fn ranges_to_indent(
    buffer_edits: &Vec<OfBuffer<BufferEdit>>,
    Ghost(made): Ghost<Seq<(BufferId, BufferEdit)>>,
) -> (r: Vec<(BufferId, Vec<Range<usize>>)>)
    requires
        sorted_out(buffer_edits@, made),
    ensures
        asks_to_indent(r@, made),
{
    let ghost gs = buffer_edits@;
    let mut plan: Vec<(BufferId, Vec<Range<usize>>)> = Vec::new();
    let mut a: usize = 0;
    while a < buffer_edits.len()
        invariant
            a <= gs.len(),
            gs == buffer_edits@,
            sorted_out(gs, made),
            plan@.len() == a,
            forall|b: int|
                0 <= b < a ==> {
                    &&& (#[trigger] plan@[b]).0 == gs[b].buffer_id
                    &&& plan@[b].1@ == ranges_of(settled(items_of(made, plan@[b].0)))
                },
        decreases gs.len() - a,
    {
        let group = &buffer_edits[a];
        assert(gs[a as int].items@ == items_of(made, gs[a as int].buffer_id));
        let settled_edits = settle(copy_edits(&group.items));
        plan.push((group.buffer_id, collect_ranges(&settled_edits)));
        a = a + 1;
    }
    proof {
        let ps = plan@;
        assert forall|i: int, j: int| 0 <= i < j < ps.len() implies (#[trigger] ps[i]).0 != (
        #[trigger] ps[j]).0 by {
            assert(gs[i].buffer_id != gs[j].buffer_id);
        }
        assert forall|k: int| 0 <= k < made.len() implies asks_buffer_to_indent(
            ps,
            (#[trigger] made[k]).0,
        ) by {
            assert(has_group(gs, made[k].0));
            let i = choose|i: int| 0 <= i < gs.len() && (#[trigger] gs[i]).buffer_id == made[k].0;
            assert(ps[i].0 == made[k].0);
        }
    }
    plan
}

} // verus!
