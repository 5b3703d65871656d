//! Changing which stretches excerpts show.

use std::ops::Range;
use vstd::prelude::*;

use crate::buffer::{row_end, row_start, BufferSnapshot, TextAnchor};
use crate::excerpt::{
    excerpt_start, excerpts_text, lemma_excerpts_text_split, lemma_excerpts_text_step, Excerpt,
    ExcerptId, ExpandExcerptDirection,
};
use crate::id_list::{
    collect_numbers, dedup_numbers, deduped, is_ascending, last_number, numbers, pop_number,
    sort_numbers,
};
use crate::locator::{
    digits_before, lemma_order_strict, lemma_order_total, lemma_order_transitive, Locator,
};
use crate::multi_buffer::{
    buffers_wf, has_state, lemma_locators_same, patched, state_fits, state_of, BufferState, Edit,
    Event, MultiBuffer,
};
use crate::snapshot::ids::{entry_of, lemma_locator_index, locator_index};
use crate::snapshot::{
    excerpts_wf, is_mapped, maps, valid_locator, ExcerptIdMapping, MultiBufferSnapshot,
};
use crate::sorting::{in_order, sort, Sortable};
use crate::text::{
    lemma_find_point, lemma_positions_grow, lemma_summary_sound, point_at, summarize, Bias, Point,
    MAX_TEXT_LEN, NEWLINE,
};

verus! {

/// Whether two sequences of excerpts differ only in what the excerpts show of
/// their buffers.
pub open spec fn same_places(a: Seq<Excerpt>, b: Seq<Excerpt>) -> bool {
    &&& a.len() == b.len()
    &&& forall|i: int|
        0 <= i < a.len() ==> {
            &&& (#[trigger] b[i]).id == a[i].id
            &&& b[i].locator == a[i].locator
            &&& b[i].buffer_id == a[i].buffer_id
            &&& b[i].buffer == a[i].buffer
            &&& b[i].has_trailing_newline == a[i].has_trailing_newline
        }
}

/// Excerpts that change only in what they show keep everything well-formed.
pub proof fn lemma_same_places(
    a: Seq<Excerpt>,
    b: Seq<Excerpt>,
    states: Seq<BufferState>,
    ids: Seq<ExcerptIdMapping>,
)
    requires
        excerpts_wf(a),
        buffers_wf(a, states),
        same_places(a, b),
        forall|i: int| 0 <= i < b.len() ==> (#[trigger] b[i]).wf(),
        forall|i: int| 0 <= i < a.len() ==> is_mapped(ids, #[trigger] a[i]),
        excerpts_text(b).len() <= MAX_TEXT_LEN,
    ensures
        excerpts_wf(b),
        buffers_wf(b, states),
        forall|i: int| 0 <= i < b.len() ==> is_mapped(ids, #[trigger] b[i]),
{
    reveal(buffers_wf);
    assert forall|i: int| 0 <= i < b.len() implies (#[trigger] b[i]).has_trailing_newline == (i
        < b.len() - 1) && valid_locator(b[i].locator@) by {
        assert(a[i].has_trailing_newline == (i < a.len() - 1) && valid_locator(a[i].locator@));
    }
    assert forall|i: int, j: int| 0 <= i < j < b.len() implies digits_before(
        (#[trigger] b[i]).locator@,
        (#[trigger] b[j]).locator@,
    ) by {
        assert(digits_before(a[i].locator@, a[j].locator@));
    }
    assert forall|s: int| 0 <= s < states.len() implies state_fits(b, #[trigger] states[s]) by {
        assert(state_fits(a, states[s]));
        lemma_locators_same(b, a, states[s].buffer.remote_id);
    }
    assert forall|i: int| 0 <= i < b.len() implies has_state(states, #[trigger] b[i]) && is_mapped(
        ids,
        b[i],
    ) by {
        assert(has_state(states, a[i]));
        let s = choose|s: int| state_of(states, s, a[i]);
        assert(state_of(states, s, b[i]));
        assert(is_mapped(ids, a[i]));
        let k = choose|k: int| maps(ids, k, a[i]);
        assert(maps(ids, k, b[i]));
    }
}

/// The edit that replaces what the `i`-th excerpt shows.
pub open spec fn replace_edit(a: Seq<Excerpt>, b: Seq<Excerpt>, i: int) -> Edit {
    Edit {
        old: Range {
            start: excerpt_start(a, i) as usize,
            end: (excerpt_start(a, i) + a[i].bytes().len()) as usize,
        },
        new: Range {
            start: excerpt_start(b, i) as usize,
            end: (excerpt_start(b, i) + b[i].bytes().len()) as usize,
        },
    }
}

/// The edits that replace what some of the excerpts show.
pub open spec fn replace_edits(
    a: Seq<Excerpt>,
    b: Seq<Excerpt>,
    indexes: Seq<int>,
) -> Seq<Edit> {
    indexes.map_values(|i: int| replace_edit(a, b, i))
}

/// Excerpts that show something else change the text as the edits say.
pub proof fn lemma_replace_patched(a: Seq<Excerpt>, b: Seq<Excerpt>, indexes: Seq<int>)
    requires
        same_places(a, b),
        excerpts_text(a).len() <= MAX_TEXT_LEN,
        excerpts_text(b).len() <= MAX_TEXT_LEN,
        forall|k: int| 0 <= k < indexes.len() ==> 0 <= #[trigger] indexes[k] < a.len(),
        forall|k: int, l: int|
            0 <= k < l < indexes.len() ==> #[trigger] indexes[k] < #[trigger] indexes[l],
        forall|i: int|
            0 <= i < a.len() && !indexes.contains(i) ==> #[trigger] a[i] == b[i],
    ensures
        patched(excerpts_text(a), excerpts_text(b), replace_edits(a, b, indexes)),
    decreases indexes.len(),
{
    let edits = replace_edits(a, b, indexes);
    if indexes.len() == 0 {
        assert(a =~= b);
    } else {
        let v = indexes.last();
        let front = indexes.drop_last();
        assert(indexes[indexes.len() - 1] == v);
        lemma_replace_at(a, b, indexes);
        let a_front = a.take(v);
        let b_front = b.take(v);
        lemma_excerpts_text_split(a, v);
        lemma_excerpts_text_split(b, v);
        assert forall|i: int| 0 <= i < a_front.len() && !front.contains(i) implies
            #[trigger] a_front[i] == b_front[i] by {
            if indexes.contains(i) {
                let k = choose|k: int| 0 <= k < indexes.len() && indexes[k] == i;
                assert(k < indexes.len() - 1);
                assert(front[k] == i);
            }
            assert(a[i] == b[i]);
        }
        assert forall|k: int| 0 <= k < front.len() implies 0 <= #[trigger] front[k]
            < a_front.len() by {
            assert(indexes[k] < indexes[indexes.len() - 1]);
        }
        lemma_replace_patched(a_front, b_front, front);
        assert(replace_edits(a_front, b_front, front) =~= edits.drop_last()) by {
            assert forall|k: int| 0 <= k < front.len() implies #[trigger] replace_edits(
                a_front,
                b_front,
                front,
            )[k] == edits.drop_last()[k] by {
                let i = front[k];
                assert(a_front.take(i) =~= a.take(i));
                assert(b_front.take(i) =~= b.take(i));
                assert(a_front[i] == a[i] && b_front[i] == b[i]);
            }
        }
    }
}

/// Behind the last excerpt that shows something else the texts agree.
proof fn lemma_replace_at(a: Seq<Excerpt>, b: Seq<Excerpt>, indexes: Seq<int>)
    requires
        same_places(a, b),
        excerpts_text(a).len() <= MAX_TEXT_LEN,
        excerpts_text(b).len() <= MAX_TEXT_LEN,
        indexes.len() > 0,
        forall|k: int| 0 <= k < indexes.len() ==> 0 <= #[trigger] indexes[k] < a.len(),
        forall|k: int, l: int|
            0 <= k < l < indexes.len() ==> #[trigger] indexes[k] < #[trigger] indexes[l],
        forall|i: int|
            0 <= i < a.len() && !indexes.contains(i) ==> #[trigger] a[i] == b[i],
    ensures
        ({
            let v = indexes.last();
            let edit = replace_edit(a, b, v);
            let old_text = excerpts_text(a);
            let new_text = excerpts_text(b);
            &&& edit.old.start == excerpt_start(a, v)
            &&& edit.new.start == excerpt_start(b, v)
            &&& edit.old.start <= edit.old.end <= old_text.len()
            &&& edit.new.start <= edit.new.end <= new_text.len()
            &&& old_text.skip(edit.old.end as int) == new_text.skip(edit.new.end as int)
        }),
{
    let v = indexes.last();
    assert(indexes[indexes.len() - 1] == v);
    let old_text = excerpts_text(a);
    let new_text = excerpts_text(b);
    assert(a.skip(v + 1) =~= b.skip(v + 1)) by {
        assert forall|i: int| v < i < a.len() implies #[trigger] a[i] == b[i] by {
            if indexes.contains(i) {
                let k = choose|k: int| 0 <= k < indexes.len() && indexes[k] == i;
                if k < indexes.len() - 1 {
                    assert(indexes[k] < indexes[indexes.len() - 1]);
                }
            }
        }
    }
    assert(b[v].has_trailing_newline == a[v].has_trailing_newline);
    lemma_excerpts_text_split(a, v + 1);
    lemma_excerpts_text_split(b, v + 1);
    lemma_excerpts_text_step(a, v);
    lemma_excerpts_text_step(b, v);
    let old_end = excerpt_start(a, v) + a[v].bytes().len();
    let new_end = excerpt_start(b, v) + b[v].bytes().len();
    assert(old_text.skip(old_end) =~= new_text.skip(new_end));
}

impl Sortable<()> for Locator {
    open spec fn comparable(context: ()) -> bool {
        true
    }

    open spec fn belongs_before(self, other: Self, context: ()) -> bool {
        digits_before(self@, other@)
    }

    fn is_before(&self, other: &Self, context: &()) -> (r: bool) {
        self.before(other)
    }

    proof fn lemma_weak_order(a: Self, b: Self, c: Self, context: ()) {
        if digits_before(a@, b@) {
            lemma_order_strict(a@, b@);
        }
        if digits_before(c@, a@) {
            lemma_order_total(a@, b@);
            if digits_before(a@, b@) {
                lemma_order_transitive(c@, a@, b@);
            }
        }
    }
}

/// The order of numbers.
pub open spec fn at_most() -> spec_fn(usize, usize) -> bool {
    |a: usize, b: usize| a <= b
}

/// The numbers of identifiers, in ascending order.
pub open spec fn ascending(ids: Seq<ExcerptId>) -> Seq<usize> {
    ids.map_values(|id: ExcerptId| id.0).sort_by(at_most())
}

/// The numbers without the greatest there is at the end.
pub open spec fn without_max(items: Seq<usize>) -> Seq<usize>
    decreases items.len(),
{
    if items.len() > 0 && items.last() == usize::MAX {
        without_max(items.drop_last())
    } else {
        items
    }
}

/// Whether an identifier was handed out.
pub open spec fn has_place(ids: Seq<ExcerptIdMapping>, id: ExcerptId) -> bool {
    exists|k: int| entry_of(ids, k, id)
}

/// The place of an identifier that was handed out.
pub open spec fn entry_locator(ids: Seq<ExcerptIdMapping>, id: ExcerptId) -> Locator {
    ids[choose|k: int| entry_of(ids, k, id)].locator
}

/// The numbers without the least there is at the start.
pub open spec fn without_min(items: Seq<usize>) -> Seq<usize> {
    if items.len() > 0 && items[0] == 0 {
        items.drop_first()
    } else {
        items
    }
}

impl MultiBufferSnapshot {
    /// The places that identifiers name, each once, save that the identifier
    /// behind all excerpts names the latest place, as often as it occurs, and
    /// the one before all excerpts names the earliest.
    pub open spec fn named_places(&self, ids: Seq<ExcerptId>) -> Seq<Locator> {
        let entries = self.excerpt_ids@;
        let rest = without_max(ascending(ids));
        let maxes = ids.len() - rest.len();
        let distinct = deduped(rest);
        let latest = if entries.len() > 0 {
            Seq::new(maxes as nat, |k: int| entries.last().locator)
        } else {
            seq![]
        };
        let earliest = if distinct.len() > 0 && distinct[0] == 0 && entries.len() > 0 {
            seq![entries[0].locator]
        } else {
            seq![]
        };
        latest + earliest + without_min(distinct).map_values(
            |id: usize| entry_locator(entries, ExcerptId(id)),
        )
    }

    proof fn lemma_sorted_numbers(ids: Seq<ExcerptId>, items: Seq<usize>)
        requires
            is_ascending(items),
            items.to_multiset() == ids.map_values(|id: ExcerptId| id.0).to_multiset(),
        ensures
            items == ascending(ids),
    {
        let all = ids.map_values(|id: ExcerptId| id.0);
        let leq = at_most();
        assert(vstd::relations::total_ordering(leq));
        all.lemma_sort_by_ensures(leq);
        assert(vstd::relations::sorted_by(items, leq));
        vstd::seq_lib::lemma_sorted_unique(items, all.sort_by(leq), leq);
    }

    /// The places that identifiers name, in order.
    pub fn excerpt_locators_for_ids(&self, ids: &Vec<ExcerptId>) -> (r: Vec<Locator>)
        requires
            self.wf(),
            forall|k: int| 0 <= k < ids@.len() ==> self.knows_id(#[trigger] ids@[k]),
        ensures
            r@ == in_order(self.named_places(ids@), ()),
    {
        let ghost entries = self.excerpt_ids@;
        let mut items: Vec<usize> = Vec::new();
        let mut k: usize = 0;
        while k < ids.len()
            invariant
                k <= ids@.len(),
                items@ == ids@.take(k as int).map_values(|id: ExcerptId| id.0),
            decreases ids@.len() - k,
        {
            items.push(ids[k].0);
            assert(items@ =~= ids@.take(k + 1).map_values(|id: ExcerptId| id.0));
            k = k + 1;
        }
        assert(ids@.take(ids@.len() as int) =~= ids@);
        let mut sorted_ids = collect_numbers(&items);
        sort_numbers(&mut sorted_ids);
        let ghost sorted = numbers(sorted_ids);
        proof {
            Self::lemma_sorted_numbers(ids@, sorted);
            broadcast use vstd::seq_lib::group_to_multiset_ensures;

            assert(sorted.to_multiset().len() == sorted.len());
            assert(items@.to_multiset().len() == items@.len());
        }
        let mut locators: Vec<Locator> = Vec::new();
        let ghost rest = without_max(sorted);
        while last_number(&sorted_ids) == Some(usize::MAX)
            invariant
                self.wf(),
                entries == self.excerpt_ids@,
                numbers(sorted_ids).len() <= sorted.len(),
                without_max(numbers(sorted_ids)) == without_max(sorted),
                entries.len() > 0 ==> locators@ == Seq::new(
                    (sorted.len() - numbers(sorted_ids).len()) as nat,
                    |j: int| entries.last().locator,
                ),
                entries.len() == 0 ==> locators@.len() == 0,
            decreases numbers(sorted_ids).len(),
        {
            let _ = pop_number(&mut sorted_ids);
            let count: usize = self.excerpt_ids.len();
            if count > 0 {
                locators.push(self.excerpt_ids[count - 1].locator.clone());
                assert(locators@ =~= Seq::new(
                    (sorted.len() - numbers(sorted_ids).len()) as nat,
                    |j: int| entries.last().locator,
                ));
            }
        }
        assert(numbers(sorted_ids) == rest);
        let distinct = dedup_numbers(sorted_ids);
        let mut next: usize = 0;
        let ghost latest = locators@;
        if distinct.len() > 0 && distinct[0] == 0 {
            next = 1;
            if self.excerpt_ids.len() > 0 {
                locators.push(self.excerpt_ids[0].locator.clone());
            }
        }
        let ghost ends = locators@;
        let ghost named = without_min(distinct@);
        let ghost skipped = next as int;
        proof {
            assert(skipped + named.len() == distinct@.len());
            assert forall|j: int| 0 <= j < named.len() implies #[trigger] named[j]
                == distinct@[skipped + j] by {}
            lemma_named_known(*self, ids@, sorted);
            assert(ends + named.take(0).map_values(
                |id: usize| entry_locator(entries, ExcerptId(id)),
            ) =~= ends);
        }
        while next < distinct.len()
            invariant
                self.wf(),
                entries == self.excerpt_ids@,
                0 <= skipped <= next <= distinct@.len(),
                skipped + named.len() == distinct@.len(),
                forall|j: int|
                    0 <= j < named.len() ==> #[trigger] named[j] == distinct@[skipped + j],
                forall|j: int|
                    0 <= j < named.len() ==> has_place(
                        entries,
                        ExcerptId(#[trigger] named[j]),
                    ),
                locators@ == ends + named.take(next - skipped).map_values(
                    |id: usize| entry_locator(entries, ExcerptId(id)),
                ),
            decreases distinct@.len() - next,
        {
            let id = ExcerptId(distinct[next]);
            assert(named[next - skipped] == id.0);
            let mut m: usize = 0;
            while m < self.excerpt_ids.len() && self.excerpt_ids[m].id.0 != id.0
                invariant
                    m <= self.excerpt_ids@.len(),
                    forall|x: int| 0 <= x < m ==> (#[trigger] self.excerpt_ids@[x]).id.0 != id.0,
                decreases self.excerpt_ids@.len() - m,
            {
                m = m + 1;
            }
            proof {
                assert(has_place(entries, id));
                let x = choose|x: int| entry_of(entries, x, id);
                assert(entry_of(entries, m as int, id));
                if m < x {
                    assert(entries[m as int].id.0 < entries[x].id.0);
                }
            }
            locators.push(self.excerpt_ids[m].locator.clone());
            next = next + 1;
            assert(locators@ =~= ends + named.take(next - skipped).map_values(
                |id: usize| entry_locator(entries, ExcerptId(id)),
            ));
        }
        proof {
            assert(named.take(named.len() as int) =~= named);
            assert(locators@ =~= self.named_places(ids@));
        }
        sort(locators, &())
    }
}

/// Numbers that are left of known identifiers belong to places.
proof fn lemma_named_known(
    snapshot: MultiBufferSnapshot,
    ids: Seq<ExcerptId>,
    sorted: Seq<usize>,
)
    requires
        is_ascending(sorted),
        sorted.to_multiset() == ids.map_values(|id: ExcerptId| id.0).to_multiset(),
        forall|k: int| 0 <= k < ids.len() ==> snapshot.knows_id(#[trigger] ids[k]),
    ensures
        forall|j: int|
            0 <= j < without_min(deduped(without_max(sorted))).len() ==> has_place(
                snapshot.excerpt_ids@,
                ExcerptId(#[trigger] without_min(deduped(without_max(sorted)))[j]),
            ),
{
    broadcast use vstd::seq_lib::group_to_multiset_ensures;

    let all = ids.map_values(|id: ExcerptId| id.0);
    let rest = without_max(sorted);
    let distinct = deduped(rest);
    let named = without_min(distinct);
    lemma_without_max(sorted);
    lemma_deduped(rest);
    assert forall|j: int| 0 <= j < named.len() implies has_place(
        snapshot.excerpt_ids@,
        ExcerptId(#[trigger] named[j]),
    ) by {
        let d = if distinct[0] == 0 {
            j + 1
        } else {
            j
        };
        assert(named[j] == distinct[d]);
        if d > 0 {
            assert(distinct[0] < distinct[d]);
        }
        assert(rest.contains(distinct[d]));
        let r = choose|r: int| 0 <= r < rest.len() && rest[r] == distinct[d];
        assert(sorted[r] == distinct[d]);
        assert(sorted.contains(sorted[r]));
        assert(sorted.to_multiset().count(sorted[r]) > 0);
        assert(all.contains(sorted[r]));
        let k = choose|k: int| 0 <= k < all.len() && all[k] == sorted[r];
        assert(snapshot.knows_id(ids[k]));
        assert(ids[k] == ExcerptId(named[j]));
    }
}

proof fn lemma_without_max(items: Seq<usize>)
    requires
        is_ascending(items),
    ensures
        without_max(items).len() <= items.len(),
        without_max(items) == items.take(without_max(items).len() as int),
        is_ascending(without_max(items)),
        forall|k: int|
            0 <= k < without_max(items).len() ==> #[trigger] without_max(items)[k] < usize::MAX,
    decreases items.len(),
{
    if items.len() > 0 && items.last() == usize::MAX {
        lemma_without_max(items.drop_last());
        assert(items.drop_last().take(without_max(items).len() as int) =~= items.take(
            without_max(items).len() as int,
        ));
    } else {
        assert(items.take(items.len() as int) =~= items);
        if items.len() > 0 {
            assert forall|k: int| 0 <= k < items.len() implies #[trigger] items[k]
                < usize::MAX by {
                assert(items[k] <= items[items.len() - 1]);
            }
        }
    }
}

pub proof fn lemma_deduped(items: Seq<usize>)
    requires
        is_ascending(items),
    ensures
        forall|i: int, j: int|
            0 <= i < j < deduped(items).len() ==> #[trigger] deduped(items)[i]
                < #[trigger] deduped(items)[j],
        forall|k: int|
            0 <= k < deduped(items).len() ==> items.contains(#[trigger] deduped(items)[k]),
        items.len() > 0 ==> deduped(items).len() > 0 && deduped(items).last() == items.last(),
    decreases items.len(),
{
    if items.len() > 0 {
        let front = items.drop_last();
        lemma_deduped(front);
        let d = deduped(front);
        let all = deduped(items);
        assert forall|k: int| 0 <= k < all.len() implies items.contains(#[trigger] all[k]) by {
            if k < d.len() {
                assert(front.contains(d[k]));
                let m = choose|m: int| 0 <= m < front.len() && front[m] == d[k];
                assert(items[m] == all[k]);
            } else {
                assert(items[items.len() - 1] == all[k]);
            }
        }
        assert forall|i: int, j: int| 0 <= i < j < all.len() implies #[trigger] all[i]
            < #[trigger] all[j] by {
            if j == d.len() {
                assert(items[items.len() - 2] <= items[items.len() - 1]);
                assert(d.last() == front.last());
                if i < d.len() - 1 {
                    assert(d[i] < d[d.len() - 1]);
                }
            }
        }
    }
}

/// What an excerpt shows once it has grown by `up` rows at its start and `down`
/// rows at its end: whole rows, as far as there are any.
pub open spec fn expanded_context(e: Excerpt, up: int, down: int) -> Range<TextAnchor> {
    let t = e.buffer.bytes();
    let max_row = point_at(t, t.len() as int).row;
    let start_row = e.start_pos().row;
    let end_row = point_at(t, e.end()).row;
    let first_row = if start_row >= up {
        start_row - up
    } else {
        0
    };
    let last_row = if end_row + down <= max_row {
        end_row + down
    } else {
        max_row
    };
    Range {
        start: e.buffer.anchor_spec(row_start(t, first_row as u32), Bias::Left),
        end: e.buffer.anchor_spec(row_end(t, last_row as u32), Bias::Right),
    }
}

/// The excerpt, grown by `up` rows at its start and `down` rows at its end.
pub open spec fn expanded(e: Excerpt, up: int, down: int) -> Excerpt {
    e.with_context(expanded_context(e, up, down))
}

/// The excerpt, grown by rows at both ends.
pub(crate) fn expand_excerpt(excerpt: &Excerpt, up: u32, down: u32) -> (r: Excerpt)
    requires
        excerpt.wf(),
        excerpt.max_buffer_row + down <= u32::MAX,
    ensures
        r.wf(),
        r == expanded(*excerpt, up as int, down as int),
{
    let buffer: &BufferSnapshot = &excerpt.buffer;
    let ghost t = buffer.bytes();
    let start_row: u32 = excerpt.buffer_start_point().row.saturating_sub(up);
    let start_point = Point { row: start_row, column: 0 };
    let start: usize = buffer.point_to_offset(start_point);
    let end = excerpt.range.context.end.to_point(buffer);
    let moved = end.plus(Point { row: down, column: 0 });
    let clipped = buffer.clip_point(moved, Bias::Left);
    let end_point = Point { row: clipped.row, column: buffer.line_len(clipped.row) };
    let end_offset: usize = buffer.point_to_offset(end_point);
    let context = buffer.anchor_before(start)..buffer.anchor_after(end_offset);
    proof {
        let max_row = point_at(t, t.len() as int).row;
        buffer.lemma_clip_row(moved, Bias::Left);
        buffer.lemma_row(clipped.row);
        lemma_find_point(t, end_point, row_end(t, clipped.row));
        lemma_row_order(t, excerpt.start(), excerpt.end());
        lemma_row_order(t, excerpt.end(), t.len() as int);
        buffer.lemma_row(start_row);
        if row_start(t, start_row) > row_end(t, clipped.row) {
            lemma_positions_grow(
                t,
                row_end(t, clipped.row),
                row_start(t, start_row),
            );
        }
        assert(context == expanded_context(*excerpt, up as int, down as int));
    }
    excerpt.resized(context)
}

proof fn lemma_row_order(t: Seq<u8>, a: int, b: int)
    requires
        0 <= a <= b <= t.len(),
    ensures
        point_at(t, a).row <= point_at(t, b).row,
{
    if a < b {
        lemma_positions_grow(t, a, b);
    }
}

/// The excerpts at which a search for the first `k` places, each behind the one
/// before, ends.
pub open spec fn visited(es: Seq<Excerpt>, places: Seq<Locator>, k: int) -> Seq<int>
    decreases k,
{
    if k <= 0 {
        seq![]
    } else {
        let before = visited(es, places, k - 1);
        let from = if before.len() == 0 {
            0
        } else {
            before.last() + 1
        };
        let i = locator_index(es, places[k - 1]@, Bias::Left, 0);
        before.push(
            if i >= from {
                i
            } else {
                from
            },
        )
    }
}

pub proof fn lemma_visited(es: Seq<Excerpt>, places: Seq<Locator>, k: int, n: int)
    requires
        0 <= k <= n,
    ensures
        visited(es, places, k).len() == k,
        visited(es, places, n).len() == n,
        visited(es, places, n).take(k) == visited(es, places, k),
        forall|i: int| 0 <= i < k ==> 0 <= #[trigger] visited(es, places, k)[i],
        forall|i: int, j: int|
            0 <= i < j < n ==> #[trigger] visited(es, places, n)[i] < #[trigger] visited(
                es,
                places,
                n,
            )[j],
    decreases n,
{
    if n == 0 {
        assert(visited(es, places, 0).take(0) =~= visited(es, places, 0));
    } else {
        lemma_locator_index(es, places[n - 1]@, Bias::Left, 0);
        let before = visited(es, places, n - 1);
        let all = visited(es, places, n);
        if k < n {
            lemma_visited(es, places, k, n - 1);
            assert(all.take(k) =~= before.take(k));
        } else {
            lemma_visited(es, places, n - 1, n - 1);
            assert(all.take(n) =~= all);
        }
        assert forall|i: int, j: int| 0 <= i < j < n implies #[trigger] all[i]
            < #[trigger] all[j] by {
            if j == n - 1 && i < n - 2 {
                assert(before[i] < before[n - 2]);
            }
        }
    }
}

/// Where the search for the `k`-th place ends.
pub proof fn lemma_visited_step(es: Seq<Excerpt>, places: Seq<Locator>, k: int)
    requires
        0 <= k < places.len(),
    ensures
        ({
            let indexes = visited(es, places, places.len() as int);
            let from = if k == 0 {
                0
            } else {
                indexes[k - 1] + 1
            };
            let i = locator_index(es, places[k]@, Bias::Left, 0);
            indexes[k] == if i >= from {
                i
            } else {
                from
            }
        }),
{
    let n = places.len() as int;
    let indexes = visited(es, places, n);
    lemma_visited(es, places, k + 1, n);
    lemma_visited(es, places, k, n);
    assert(indexes.take(k + 1)[k] == visited(es, places, k + 1)[k]);
    if k > 0 {
        assert(indexes.take(k)[k - 1] == visited(es, places, k)[k - 1]);
    }
}

/// No index lies between two that follow one another.
proof fn lemma_not_visited(indexes: Seq<int>, k: int)
    requires
        0 <= k <= indexes.len(),
        forall|x: int, y: int|
            0 <= x < y < indexes.len() ==> #[trigger] indexes[x] < #[trigger] indexes[y],
    ensures
        forall|x: int|
            (k == 0 || indexes[k - 1] < x) && (k == indexes.len() || x < indexes[k])
                ==> !indexes.contains(x),
{
    assert forall|x: int|
        (k == 0 || indexes[k - 1] < x) && (k == indexes.len() || x < indexes[k]) implies
        !indexes.contains(x) by {
        if indexes.contains(x) {
            let y = choose|y: int| 0 <= y < indexes.len() && indexes[y] == x;
            if y < k - 1 {
                assert(indexes[y] < indexes[k - 1]);
            }
            if y > k {
                assert(indexes[k] < indexes[y]);
            }
        }
    }
}

impl MultiBufferSnapshot {
    /// The excerpts that identifiers name.
    pub open spec fn named_indexes(&self, ids: Seq<ExcerptId>) -> Seq<int> {
        let places = in_order(self.named_places(ids), ());
        visited(self.excerpts@, places, places.len() as int)
    }

    /// The excerpts, those that identifiers name grown.
    pub open spec fn expansion(&self, ids: Seq<ExcerptId>, up: int, down: int) -> Seq<Excerpt> {
        Seq::new(
            self.excerpts@.len(),
            |i: int|
                if self.named_indexes(ids).contains(i) {
                    expanded(self.excerpts@[i], up, down)
                } else {
                    self.excerpts@[i]
                },
        )
    }

    /// Whether excerpts can grow.
    pub open spec fn can_expand(&self, ids: Seq<ExcerptId>, up: int, down: int) -> bool {
        &&& forall|k: int| 0 <= k < ids.len() ==> self.knows_id(#[trigger] ids[k])
        &&& self.named_indexes(ids).len() > 0 ==> self.named_indexes(ids).last()
            < self.excerpts@.len()
        &&& forall|k: int|
            0 <= k < self.named_indexes(ids).len() ==> self.excerpts@[#[trigger] self.named_indexes(
                ids,
            )[k]].max_buffer_row + down <= u32::MAX
        &&& excerpts_text(self.expansion(ids, up, down)).len() <= MAX_TEXT_LEN
    }

    proof fn lemma_expansion(&self, ids: Seq<ExcerptId>, up: int, down: int)
        requires
            self.wf(),
            self.can_expand(ids, up, down),
        ensures
            same_places(self.excerpts@, self.expansion(ids, up, down)),
            forall|k: int|
                0 <= k < self.named_indexes(ids).len() ==> 0 <= #[trigger] self.named_indexes(
                    ids,
                )[k] < self.excerpts@.len(),
            forall|k: int, l: int|
                0 <= k < l < self.named_indexes(ids).len() ==> #[trigger] self.named_indexes(
                    ids,
                )[k] < #[trigger] self.named_indexes(ids)[l],
    {
        let places = in_order(self.named_places(ids), ());
        let n = places.len() as int;
        lemma_visited(self.excerpts@, places, n, n);
        let indexes = self.named_indexes(ids);
        assert forall|k: int| 0 <= k < indexes.len() implies 0 <= #[trigger] indexes[k]
            < self.excerpts@.len() by {
            if k < n - 1 {
                assert(indexes[k] < indexes[n - 1]);
            }
        }
    }
}

/// By how many rows excerpts grow at their start.
pub open spec fn up_lines(direction: ExpandExcerptDirection, line_count: u32) -> int {
    if direction is Up || direction is UpAndDown {
        line_count as int
    } else {
        0
    }
}

/// By how many rows excerpts grow at their end.
pub open spec fn down_lines(direction: ExpandExcerptDirection, line_count: u32) -> int {
    if direction is Down || direction is UpAndDown {
        line_count as int
    } else {
        0
    }
}

impl MultiBuffer {
    /// Whether `self` is `before` with other excerpts in the same places, and the
    /// change was published and announced.
    pub open spec fn has_replaced(
        &self,
        before: &MultiBuffer,
        es: Seq<Excerpt>,
        edits: Seq<Edit>,
        ids: Seq<ExcerptId>,
    ) -> bool {
        &&& self.snapshot.excerpts@ == es
        &&& self.snapshot.excerpt_ids@ == before.snapshot.excerpt_ids@
        &&& self.snapshot.same_but_excerpts(&before.snapshot)
        &&& self.buffers == before.buffers
        &&& self.same_but_excerpts(before)
        &&& self.published_on(before, edits)
        &&& self.events@.len() == before.events@.len() + 2
        &&& self.events@.take(before.events@.len() as int) == before.events@
        &&& self.events@[before.events@.len() as int] == (Event::Edited {
            singleton_buffer_edited: false,
            edited_buffer: None,
        })
        &&& self.events@.last() matches Event::ExcerptsExpanded { ids: expanded_ids }
            && expanded_ids@ == ids
    }

    /// Whether `self` is `before` with excerpts grown.
    pub open spec fn has_expanded(
        &self,
        before: &MultiBuffer,
        ids: Seq<ExcerptId>,
        line_count: u32,
        direction: ExpandExcerptDirection,
    ) -> bool {
        let up = up_lines(direction, line_count);
        let down = down_lines(direction, line_count);
        let es = before.snapshot.expansion(ids, up, down);
        let edits = replace_edits(
            before.snapshot.excerpts@,
            es,
            before.snapshot.named_indexes(ids),
        );
        if line_count == 0 {
            *self == *before
        } else {
            &&& self.has_replaced(before, es, edits, ids)
            &&& patched(before.snapshot.bytes(), self.snapshot.bytes(), edits)
        }
    }

    /// Lets excerpts grow by rows of their buffers.
    pub fn expand_excerpts(
        &mut self,
        ids: Vec<ExcerptId>,
        line_count: u32,
        direction: ExpandExcerptDirection,
    )
        requires
            old(self).wf(),
            line_count == 0 || old(self).snapshot.can_expand(
                ids@,
                up_lines(direction, line_count),
                down_lines(direction, line_count),
            ),
        ensures
            final(self).wf(),
            final(self).has_expanded(old(self), ids@, line_count, direction),
    {
        if line_count == 0 {
            return ;
        }
        let ghost before = *self;
        let up: u32 = if direction.should_expand_up() {
            line_count
        } else {
            0
        };
        let down: u32 = if direction.should_expand_down() {
            line_count
        } else {
            0
        };
        let (new_excerpts, edits) = self.snapshot.expand(&ids, up, down);
        let ghost es = self.snapshot.expansion(ids@, up as int, down as int);
        proof {
            self.snapshot.lemma_expansion(ids@, up as int, down as int);
            lemma_same_places(
                self.snapshot.excerpts@,
                es,
                self.buffers@,
                self.snapshot.excerpt_ids@,
            );
            let indexes = self.snapshot.named_indexes(ids@);
            lemma_replace_patched(self.snapshot.excerpts@, es, indexes);
            lemma_expansion_singleton(self.snapshot, ids@, up as int, down as int);
        }
        self.replace_excerpts(new_excerpts, edits, ids, Ghost(before));
    }

    /// Puts other excerpts in the same places, publishes and announces it.
    fn replace_excerpts(
        &mut self,
        excerpts: Vec<Excerpt>,
        edits: Vec<Edit>,
        ids: Vec<ExcerptId>,
        Ghost(before): Ghost<MultiBuffer>,
    )
        requires
            *old(self) == before,
            before.wf(),
            excerpts_wf(excerpts@),
            buffers_wf(excerpts@, before.buffers@),
            forall|i: int|
                0 <= i < excerpts@.len() ==> is_mapped(
                    before.snapshot.excerpt_ids@,
                    #[trigger] excerpts@[i],
                ),
            excerpts@.len() == before.snapshot.excerpts@.len(),
            before.singleton && excerpts@.len() == 1 ==> excerpts@[0].start() == 0
                && excerpts@[0].end() == excerpts@[0].buffer.bytes().len(),
        ensures
            final(self).wf(),
            final(self).has_replaced(&before, excerpts@, edits@, ids@),
    {
        self.snapshot.excerpts = excerpts;
        self.published.push(edits);
        self.events.push(
            Event::Edited { singleton_buffer_edited: false, edited_buffer: None },
        );
        self.events.push(Event::ExcerptsExpanded { ids });
        assert(self.published@.drop_last() =~= before.published@);
        assert(self.events@.take(before.events@.len() as int) =~= before.events@);
    }

    /// Lets an excerpt show another stretch of its buffer.
    pub fn resize_excerpt(&mut self, id: ExcerptId, range: Range<TextAnchor>)
        requires
            old(self).wf(),
            old(self).snapshot.knows_id(id),
            0 <= old(self).snapshot.index_for(id) < old(self).snapshot.excerpts@.len(),
            old(self).snapshot.excerpts@[old(self).snapshot.index_for(id)].can_show(range),
            !old(self).singleton,
            excerpts_text(old(self).snapshot.resized(id, range)).len() <= MAX_TEXT_LEN,
        ensures
            final(self).wf(),
            ({
                let es = old(self).snapshot.resized(id, range);
                let edits = seq![
                    replace_edit(
                        old(self).snapshot.excerpts@,
                        es,
                        old(self).snapshot.index_for(id),
                    ),
                ];
                &&& final(self).has_replaced(old(self), es, edits, seq![id])
                &&& patched(old(self).snapshot.bytes(), final(self).snapshot.bytes(), edits)
            }),
    {
        let ghost before = *self;
        let ghost es = self.snapshot.excerpts@;
        let i: usize = self.snapshot.index_for_id(id);
        let cursor = self.snapshot.cursor_at(i);
        let start: usize = cursor.start.len;
        let excerpt = self.snapshot.excerpts[i].resized(range);
        let old_len: usize = self.snapshot.excerpts[i].text_summary.len;
        let ghost new_es = self.snapshot.resized(id, range);
        proof {
            assert(same_places(es, new_es));
            lemma_same_places(es, new_es, self.buffers@, self.snapshot.excerpt_ids@);
            assert(replace_edits(es, new_es, seq![i as int]) =~= seq![
                replace_edit(es, new_es, i as int),
            ]);
            assert forall|j: int| 0 <= j < es.len() && !seq![i as int].contains(j) implies
                #[trigger] es[j] == new_es[j] by {
                if j == i {
                    assert(seq![i as int][0] == j);
                }
            }
            lemma_replace_patched(es, new_es, seq![i as int]);
            assert(es.take(i as int) =~= new_es.take(i as int));
            lemma_excerpts_text_split(es, i + 1);
            lemma_excerpts_text_step(es, i as int);
            lemma_excerpts_text_split(new_es, i + 1);
            lemma_excerpts_text_step(new_es, i as int);
            lemma_summary_sound(es[i as int].bytes());
            lemma_summary_sound(new_es[i as int].bytes());
        }
        let mut edits: Vec<Edit> = Vec::new();
        edits.push(
            Edit { old: start..start + old_len, new: start..start + excerpt.text_summary.len },
        );
        assert(edits@ =~= seq![replace_edit(es, new_es, i as int)]);
        let mut new_excerpts: Vec<Excerpt> = Vec::new();
        let mut j: usize = 0;
        while j < self.snapshot.excerpts.len()
            invariant
                j <= es.len(),
                es == self.snapshot.excerpts@,
                *self == before,
                i < es.len(),
                new_es == es.update(i as int, excerpt),
                new_excerpts@ == new_es.take(j as int),
            decreases es.len() - j,
        {
            if j == i {
                new_excerpts.push(excerpt.clone());
            } else {
                new_excerpts.push(self.snapshot.excerpts[j].clone());
            }
            assert(new_excerpts@ =~= new_es.take(j + 1));
            j = j + 1;
        }
        assert(new_es.take(new_es.len() as int) =~= new_es);
        let mut ids: Vec<ExcerptId> = Vec::new();
        ids.push(id);
        assert(ids@ =~= seq![id]);
        self.replace_excerpts(new_excerpts, edits, ids, Ghost(before));
    }
}

impl MultiBufferSnapshot {
    /// The excerpts, the one with an identifier showing another stretch.
    pub open spec fn resized(&self, id: ExcerptId, range: Range<TextAnchor>) -> Seq<Excerpt> {
        let i = self.index_for(id);
        self.excerpts@.update(i, self.excerpts@[i].with_context(range))
    }

    /// The excerpts, those that identifiers name grown, and the edits that this
    /// makes.
    fn expand(&self, ids: &Vec<ExcerptId>, up: u32, down: u32) -> (r: (Vec<Excerpt>, Vec<Edit>))
        requires
            self.wf(),
            self.can_expand(ids@, up as int, down as int),
        ensures
            r.0@ == self.expansion(ids@, up as int, down as int),
            forall|i: int| 0 <= i < r.0@.len() ==> (#[trigger] r.0@[i]).wf(),
            r.1@ == replace_edits(self.excerpts@, r.0@, self.named_indexes(ids@)),
    {
        let ghost es = self.excerpts@;
        let ghost goal = self.expansion(ids@, up as int, down as int);
        let ghost indexes = self.named_indexes(ids@);
        let locators = self.excerpt_locators_for_ids(ids);
        let mut new_excerpts: Vec<Excerpt> = Vec::new();
        let mut new_len: usize = 0;
        let mut edits: Vec<Edit> = Vec::new();
        let mut k: usize = 0;
        proof {
            self.lemma_expansion(ids@, up as int, down as int);
            assert(goal.take(0) =~= Seq::<Excerpt>::empty());
            assert(indexes.len() == locators@.len()) by {
                lemma_visited(es, locators@, locators@.len() as int, locators@.len() as int);
            }
            assert(replace_edits(es, goal, indexes.take(0)) =~= Seq::<Edit>::empty());
        }
        while k < locators.len()
            invariant
                self.wf(),
                es == self.excerpts@,
                goal.len() == es.len(),
                excerpts_text(goal).len() <= MAX_TEXT_LEN,
                forall|x: int|
                    0 <= x < goal.len() && !indexes.contains(x) ==> #[trigger] goal[x] == es[x],
                forall|x: int|
                    0 <= x < goal.len() && indexes.contains(x) ==> #[trigger] goal[x] == expanded(
                        es[x],
                        up as int,
                        down as int,
                    ),
                forall|x: int|
                    0 <= x < indexes.len() ==> es[#[trigger] indexes[x]].max_buffer_row + down
                        <= u32::MAX,
                indexes == visited(es, locators@, locators@.len() as int),
                indexes.len() == locators@.len(),
                forall|x: int|
                    0 <= x < indexes.len() ==> 0 <= #[trigger] indexes[x] < es.len(),
                forall|x: int, y: int|
                    0 <= x < y < indexes.len() ==> #[trigger] indexes[x] < #[trigger] indexes[y],
                k <= locators@.len(),
                new_excerpts@.len() == if k == 0 {
                    0
                } else {
                    indexes[k - 1] + 1
                },
                new_excerpts@ == goal.take(new_excerpts@.len() as int),
                new_len == excerpts_text(new_excerpts@).len(),
                forall|i: int|
                    0 <= i < new_excerpts@.len() ==> (#[trigger] new_excerpts@[i]).wf(),
                edits@ == replace_edits(es, goal, indexes.take(k as int)),
            decreases locators@.len() - k,
        {
            let from: usize = new_excerpts.len();
            let found: usize = self.seek_locator(&locators[k], Bias::Left);
            let i: usize = if found >= from {
                found
            } else {
                from
            };
            proof {
                lemma_visited_step(es, locators@, k as int);
                lemma_not_visited(indexes, k as int);
            }
            self.copy_excerpts(
                &mut new_excerpts,
                &mut new_len,
                from,
                i,
                Ghost(goal),
                Ghost(indexes),
            );
            proof {
                assert(indexes.contains(indexes[k as int]));
            }
            let edit = self.push_expanded(
                &mut new_excerpts,
                &mut new_len,
                i,
                up,
                down,
                Ghost(goal),
            );
            edits.push(edit);
            proof {
                assert(indexes.take(k + 1) =~= indexes.take(k as int).push(i as int));
                assert(edits@ =~= replace_edits(es, goal, indexes.take(k + 1)));
            }
            k = k + 1;
        }
        let from: usize = new_excerpts.len();
        let n: usize = self.excerpts.len();
        proof {
            lemma_not_visited(indexes, k as int);
            assert(indexes.take(k as int) =~= indexes);
        }
        self.copy_excerpts(
            &mut new_excerpts,
            &mut new_len,
            from,
            n,
            Ghost(goal),
            Ghost(indexes),
        );
        assert(goal.take(n as int) =~= goal);
        (new_excerpts, edits)
    }

    /// Adds the `i`-th excerpt, grown. Returns the edit that this makes.
    fn push_expanded(
        &self,
        new_excerpts: &mut Vec<Excerpt>,
        new_len: &mut usize,
        i: usize,
        up: u32,
        down: u32,
        Ghost(goal): Ghost<Seq<Excerpt>>,
    ) -> (r: Edit)
        requires
            self.wf(),
            i < self.excerpts@.len(),
            goal.len() == self.excerpts@.len(),
            excerpts_text(goal).len() <= MAX_TEXT_LEN,
            self.excerpts@[i as int].max_buffer_row + down <= u32::MAX,
            goal[i as int] == expanded(self.excerpts@[i as int], up as int, down as int),
            old(new_excerpts)@ == goal.take(i as int),
            *old(new_len) == excerpts_text(old(new_excerpts)@).len(),
        ensures
            final(new_excerpts)@ == goal.take(i + 1),
            *final(new_len) == excerpts_text(final(new_excerpts)@).len(),
            goal[i as int].wf(),
            r == replace_edit(self.excerpts@, goal, i as int),
    {
        let ghost es = self.excerpts@;
        let old = &self.excerpts[i];
        let cursor = self.cursor_at(i);
        let old_start: usize = cursor.start.len;
        let excerpt = expand_excerpt(old, up, down);
        proof {
            lemma_excerpts_text_split(goal, i + 1);
            lemma_excerpts_text_step(goal, i as int);
            lemma_excerpts_text_split(es, i + 1);
            lemma_excerpts_text_step(es, i as int);
            lemma_summary_sound(excerpt.bytes());
            lemma_summary_sound(old.bytes());
        }
        let new_start: usize = *new_len;
        let edit = Edit {
            old: old_start..old_start + old.text_summary.len,
            new: new_start..new_start + excerpt.text_summary.len,
        };
        *new_len = new_start + excerpt.text_summary.len + if excerpt.has_trailing_newline {
            1
        } else {
            0
        };
        new_excerpts.push(excerpt);
        assert(new_excerpts@ =~= goal.take(i + 1));
        edit
    }

    /// Copies excerpts that do not grow.
    fn copy_excerpts(
        &self,
        new_excerpts: &mut Vec<Excerpt>,
        new_len: &mut usize,
        from: usize,
        to: usize,
        Ghost(goal): Ghost<Seq<Excerpt>>,
        Ghost(indexes): Ghost<Seq<int>>,
    )
        requires
            self.wf(),
            from <= to <= self.excerpts@.len(),
            goal.len() == self.excerpts@.len(),
            excerpts_text(goal).len() <= MAX_TEXT_LEN,
            forall|x: int|
                from <= x < to ==> !indexes.contains(x),
            forall|x: int|
                0 <= x < goal.len() && !indexes.contains(x) ==> #[trigger] goal[x]
                    == self.excerpts@[x],
            old(new_excerpts)@ == goal.take(from as int),
            *old(new_len) == excerpts_text(old(new_excerpts)@).len(),
            forall|i: int|
                0 <= i < old(new_excerpts)@.len() ==> (#[trigger] old(new_excerpts)@[i]).wf(),
        ensures
            final(new_excerpts)@ == goal.take(to as int),
            *final(new_len) == excerpts_text(final(new_excerpts)@).len(),
            forall|i: int|
                0 <= i < final(new_excerpts)@.len() ==> (
                #[trigger] final(new_excerpts)@[i]).wf(),
    {
        let mut at: usize = from;
        while at < to
            invariant
                self.wf(),
                from <= at <= to <= self.excerpts@.len(),
                goal.len() == self.excerpts@.len(),
                excerpts_text(goal).len() <= MAX_TEXT_LEN,
                forall|x: int| from <= x < to ==> !indexes.contains(x),
                forall|x: int|
                    0 <= x < goal.len() && !indexes.contains(x) ==> #[trigger] goal[x]
                        == self.excerpts@[x],
                new_excerpts@ == goal.take(at as int),
                *new_len == excerpts_text(new_excerpts@).len(),
                forall|i: int|
                    0 <= i < new_excerpts@.len() ==> (#[trigger] new_excerpts@[i]).wf(),
            decreases to - at,
        {
            proof {
                assert(goal[at as int] == self.excerpts@[at as int]);
                assert(self.excerpts@[at as int].wf());
                lemma_excerpts_text_split(goal, at + 1);
                lemma_excerpts_text_step(goal, at as int);
                lemma_summary_sound(goal[at as int].bytes());
            }
            let excerpt = self.excerpts[at].clone();
            *new_len = *new_len + excerpt.text_summary.len + if excerpt.has_trailing_newline {
                1
            } else {
                0
            };
            new_excerpts.push(excerpt);
            assert(new_excerpts@ =~= goal.take(at + 1));
            at = at + 1;
        }
    }
}

/// An excerpt that shows all of its buffer still does once it has grown.
proof fn lemma_expansion_singleton(
    snapshot: MultiBufferSnapshot,
    ids: Seq<ExcerptId>,
    up: int,
    down: int,
)
    requires
        snapshot.wf(),
        0 <= up,
        0 <= down,
    ensures
        snapshot.singleton && snapshot.excerpts@.len() == 1 ==> {
            let e = snapshot.expansion(ids, up, down)[0];
            e.start() == 0 && e.end() == e.buffer.bytes().len()
        },
{
    if snapshot.singleton && snapshot.excerpts@.len() == 1 {
        let e = snapshot.excerpts@[0];
        let t = e.buffer.bytes();
        assert(e.wf());
        reveal(summarize);
        let max_row = point_at(t, t.len() as int).row;
        lemma_summary_sound(t.take(t.len() as int));
        assert(t.take(0) =~= Seq::<u8>::empty());
        lemma_summary_sound(t.take(0));
        e.buffer.lemma_row(0);
        e.buffer.lemma_row(max_row as u32);
        if row_start(t, 0) > 0 {
            lemma_positions_grow(t, 0, row_start(t, 0));
        }
        let end = row_end(t, max_row as u32);
        if end < t.len() {
            assert(t.take(end + 1).drop_last() =~= t.take(end));
            assert(t.take(end + 1).last() == NEWLINE);
            lemma_row_order(t, end + 1, t.len() as int);
        }
    }
}

} // verus!
