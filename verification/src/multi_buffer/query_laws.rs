//! What holds of where a multibuffer shows what its buffers hold.

use std::ops::Range;
use vstd::prelude::*;

use crate::buffer::BufferId;
use crate::excerpt::{
    excerpt_start, excerpts_text, lemma_excerpt_position, lemma_excerpt_start_grows,
    lemma_excerpts_text_split, lemma_excerpts_text_step, lemma_text_within, Excerpt,
};
use crate::history::laws::lemma_found_first;
use crate::history::TransactionId;
use crate::multi_buffer::edit::{edited_index, offset_in_buffer};
use crate::multi_buffer::edit_laws::{lemma_touched, part_end, part_start, touches_excerpt};
use crate::multi_buffer::edited_ranges::{
    all_shown_ranges, shown_ranges, showing_index, shows_range,
};
use crate::multi_buffer::queries::{
    excerpts_of, indexes_of, is_range_of, part_of_range, point_in_buffer, point_index,
    starting_past,
};
use crate::multi_buffer::MultiBuffer;
use crate::snapshot::convert::{lemma_summary_before, lemma_summary_within, to_point};
use crate::snapshot::lines::lemma_excerpt_rows;
use crate::snapshot::{
    excerpts_wf, lemma_seek_offset, lemma_seek_point, seek_index, MultiBufferSnapshot,
};
use crate::sorting::{in_order, lemma_in_order, lemma_in_order_from};
use crate::text::{lemma_positions_grow, lemma_summary_sound, point_at, summarize, Bias, Point};

verus! {

/// The excerpt that an offset falls into is the only one that the offset touches, and
/// what its buffer holds at the offset there is what the text holds.
pub proof fn lemma_shown_at(snapshot: MultiBufferSnapshot, offset: usize)
    requires
        snapshot.wf(),
        snapshot.excerpts@.len() > 0,
        offset <= snapshot.bytes().len(),
    ensures
        ({
            let es = snapshot.excerpts@;
            let i = edited_index(es, offset);
            let o = offset_in_buffer(es, i, offset as int);
            &&& 0 <= i < es.len()
            &&& forall|m: int|
                #[trigger] touches_excerpt(es, m, Range { start: offset, end: offset }) <==> m == i
            &&& es[i].start() <= o <= es[i].end()
            &&& o - es[i].start() == offset - excerpt_start(es, i)
            &&& o < es[i].end() ==> snapshot.bytes()[offset as int] == es[i].buffer.bytes()[o]
        }),
{
    let es = snapshot.excerpts@;
    let range = Range { start: offset, end: offset };
    let i = edited_index(es, offset);
    lemma_touched(es, range, 0);
    assert forall|m: int| #[trigger] touches_excerpt(es, m, range) <==> m == i by {
        if 0 <= m < es.len() {
            lemma_touched(es, range, m);
        }
    }
    assert(touches_excerpt(es, i, range));
    lemma_excerpt_position(es[i], 0);
    let o = offset_in_buffer(es, i, offset as int);
    if o < es[i].end() {
        let k = offset - excerpt_start(es, i);
        lemma_text_within(es, i, k, k + 1);
        assert(excerpts_text(es).subrange(offset as int, offset + 1)[0] == excerpts_text(
            es,
        )[offset as int]);
        assert(es[i].text().subrange(k, k + 1)[0] == es[i].text()[k]);
        assert(es[i].text()[k] == es[i].bytes()[k]);
    }
}

proof fn lemma_starting_past(es: Seq<Excerpt>, offset: int, from: int)
    requires
        0 <= from <= es.len(),
    ensures
        ({
            let to = starting_past(es, offset, from);
            &&& from <= to <= es.len()
            &&& forall|m: int| from <= m < to ==> #[trigger] excerpt_start(es, m) <= offset
            &&& forall|m: int| to <= m < es.len() ==> #[trigger] excerpt_start(es, m) > offset
        }),
    decreases es.len() - from,
{
    if from < es.len() {
        if excerpt_start(es, from) > offset {
            assert forall|m: int| from <= m < es.len() implies #[trigger] excerpt_start(es, m)
                > offset by {
                lemma_excerpt_start_grows(es, from, m);
            }
        } else {
            lemma_starting_past(es, offset, from + 1);
        }
    }
}

/// The parts of a range are those of just the excerpts that it touches, in their order,
/// each as far as the range goes in it.
pub proof fn lemma_parts_of_range(es: Seq<Excerpt>, range: Range<usize>, m: int)
    requires
        excerpts_wf(es),
        range.start <= range.end <= excerpts_text(es).len(),
        0 <= m < es.len(),
    ensures
        ({
            let from = edited_index(es, range.start);
            let to = starting_past(es, range.end as int, from);
            let part = part_of_range(es, m, range.start as int, range.end as int);
            &&& 0 <= from <= to <= es.len()
            &&& touches_excerpt(es, m, range) <==> from <= m < to
            &&& touches_excerpt(es, m, range) ==> {
                &&& part.0 == es[m].buffer_id
                &&& part.1.start == part_start(es, m, range)
                &&& part.1.end == part_end(es, m, range)
                &&& part.2 == es[m].id
            }
        }),
{
    let from = edited_index(es, range.start);
    let j = edited_index(es, range.end);
    lemma_touched(es, range, m);
    lemma_starting_past(es, range.end as int, from);
    lemma_excerpt_position(es[m], 0);
    let to = starting_past(es, range.end as int, from);
    if from <= m {
        assert(touches_excerpt(es, m, range) <==> m < to) by {
            if m < to {
                assert(excerpt_start(es, m) <= range.end);
                lemma_touched(es, range, from);
                lemma_excerpts_text_step(es, from);
                if from < m {
                    lemma_excerpt_start_grows(es, from + 1, m);
                    assert(es[from].has_trailing_newline);
                }
                assert(touches_excerpt(es, from, range));
            } else {
                assert(excerpt_start(es, m) > range.end);
            }
        }
    }
}

/// The excerpts of a buffer are all that show it, in the order in which they stand.
pub proof fn lemma_excerpts_of(es: Seq<Excerpt>, buffer_id: BufferId)
    ensures
        excerpts_of(es, buffer_id) == es.filter(|e: Excerpt| e.buffer_id == buffer_id).map_values(
            |e: Excerpt| (e.id, e.range),
        ),
    decreases es.len(),
{
    reveal(Seq::filter);
    let own = |e: Excerpt| e.buffer_id == buffer_id;
    let told = |e: Excerpt| (e.id, e.range);
    if es.len() > 0 {
        lemma_excerpts_of(es.drop_last(), buffer_id);
        assert(es.filter(own).map_values(told) =~= excerpts_of(es, buffer_id));
    } else {
        assert(es.filter(own).map_values(told) =~= excerpts_of(es, buffer_id));
    }
}

proof fn lemma_indexes_of(es: Seq<Excerpt>, buffer_id: BufferId, n: int)
    requires
        0 <= n <= es.len(),
    ensures
        ({
            let r = indexes_of(es, buffer_id, n);
            &&& forall|a: int, b: int| 0 <= a < b < r.len() ==> #[trigger] r[a] < #[trigger] r[b]
            &&& forall|a: int|
                0 <= a < r.len() ==> 0 <= #[trigger] r[a] < n && es[r[a]].buffer_id == buffer_id
            &&& forall|i: int|
                0 <= i < n && (#[trigger] es[i]).buffer_id == buffer_id ==> r.contains(i)
        }),
    decreases n,
{
    if n > 0 {
        lemma_indexes_of(es, buffer_id, n - 1);
        let front = indexes_of(es, buffer_id, n - 1);
        let r = indexes_of(es, buffer_id, n);
        assert forall|i: int|
            0 <= i < n && (#[trigger] es[i]).buffer_id == buffer_id implies r.contains(i) by {
            if i < n - 1 {
                let a = choose|a: int| 0 <= a < front.len() && front[a] == i;
                assert(r[a] == i);
            } else {
                assert(r[front.len() as int] == i);
            }
        }
    }
}

/// The ranges of a buffer's excerpts are told for each of them once, in the order in which
/// they stand: from the point at which the excerpt starts to the one at which it ends.
#[verifier::rlimit(50)]
pub proof fn lemma_ranges_of_buffer(
    snapshot: MultiBufferSnapshot,
    buffer_id: BufferId,
    ranges: Seq<Range<Point>>,
    i: int,
) -> (k: int)
    requires
        snapshot.wf(),
        ({
            let es = snapshot.excerpts@;
            let indexes = indexes_of(es, buffer_id, es.len() as int);
            &&& ranges.len() == indexes.len()
            &&& forall|k: int|
                0 <= k < ranges.len() ==> is_range_of(#[trigger] ranges[k], es, indexes[k])
        }),
        0 <= i < snapshot.excerpts@.len(),
        snapshot.excerpts@[i].buffer_id == buffer_id,
    ensures
        ({
            let es = snapshot.excerpts@;
            &&& 0 <= k < ranges.len()
            &&& ranges[k].start@ == point_at(snapshot.bytes(), excerpt_start(es, i))
            &&& ranges[k].end@ == point_at(
                snapshot.bytes(),
                excerpt_start(es, i) + es[i].bytes().len(),
            )
            &&& ranges.len() == es.filter(|e: Excerpt| e.buffer_id == buffer_id).len()
        }),
{
    let es = snapshot.excerpts@;
    let n = es.len() as int;
    let indexes = indexes_of(es, buffer_id, n);
    lemma_indexes_of(es, buffer_id, n);
    let k = choose|k: int| 0 <= k < indexes.len() && indexes[k] == i;
    assert(is_range_of(ranges[k], es, indexes[k]));
    lemma_summary_within(es, i, es[i].bytes().len() as int);
    lemma_summary_within(es, i, 0);
    assert(es[i].bytes().take(es[i].bytes().len() as int) =~= es[i].bytes());
    lemma_excerpts_text_split(es, i);
    lemma_excerpt_start_grows(es, i, n);
    assert(es.take(n) =~= es);
    assert(snapshot.bytes().take(excerpt_start(es, i)) =~= excerpts_text(es.take(i)));
    lemma_indexes_count(es, buffer_id, n);
    k
}

proof fn lemma_indexes_count(es: Seq<Excerpt>, buffer_id: BufferId, n: int)
    requires
        0 <= n <= es.len(),
    ensures
        indexes_of(es, buffer_id, n).len() == es.take(n).filter(
            |e: Excerpt| e.buffer_id == buffer_id,
        ).len(),
    decreases n,
{
    reveal(Seq::filter);
    if n > 0 {
        lemma_indexes_count(es, buffer_id, n - 1);
        assert(es.take(n).drop_last() =~= es.take(n - 1));
    }
}

/// Whether the `i`-th excerpt is the first to show both ends of a range of a buffer.
pub open spec fn shows_first(
    es: Seq<Excerpt>,
    buffer_id: BufferId,
    range: Range<usize>,
    i: int,
) -> bool {
    &&& 0 <= i < es.len()
    &&& es[i].buffer_id == buffer_id
    &&& es[i].start() <= range.start < es[i].end()
    &&& es[i].start() <= range.end < es[i].end()
    &&& forall|j: int|
        0 <= j < i ==> !((#[trigger] es[j]).buffer_id == buffer_id && es[j].start() <= range.start
            < es[j].end() && es[j].start() <= range.end < es[j].end())
}

/// Whether a range of the text is where the `i`-th excerpt shows a range of its buffer.
pub open spec fn is_shown_as(
    es: Seq<Excerpt>,
    i: int,
    range: Range<usize>,
    shown: Range<usize>,
) -> bool {
    &&& shown.start - excerpt_start(es, i) == range.start - es[i].start()
    &&& shown.end - excerpt_start(es, i) == range.end - es[i].start()
}

proof fn lemma_showing_first(
    es: Seq<Excerpt>,
    buffer_id: BufferId,
    range: Range<usize>,
    from: int,
)
    requires
        0 <= from <= es.len(),
        forall|j: int| 0 <= j < from ==> !shows_range(#[trigger] es[j], buffer_id, range),
    ensures
        ({
            let i = showing_index(es, buffer_id, range, from);
            &&& from <= i <= es.len()
            &&& i < es.len() ==> shows_first(es, buffer_id, range, i)
            &&& i == es.len() ==> forall|j: int| !shows_first(es, buffer_id, range, j)
        }),
    decreases es.len() - from,
{
    if from < es.len() {
        if shows_range(es[from], buffer_id, range) {
            assert forall|j: int| 0 <= j < from implies !((#[trigger] es[j]).buffer_id == buffer_id
                && es[j].start() <= range.start < es[j].end() && es[j].start() <= range.end
                < es[j].end()) by {
                assert(!shows_range(es[j], buffer_id, range));
            }
        } else {
            lemma_showing_first(es, buffer_id, range, from + 1);
        }
    } else {
        assert forall|j: int| !shows_first(es, buffer_id, range, j) by {
            if 0 <= j < es.len() {
                assert(!shows_range(es[j], buffer_id, range));
            }
        }
    }
}

/// A range that a buffer edited is told as far as an excerpt shows both its ends: where
/// the first such excerpt shows it, so that the same text stands there.
pub proof fn lemma_edited_range_told(
    es: Seq<Excerpt>,
    buffer_id: BufferId,
    ranges: Seq<Range<usize>>,
    k: int,
    i: int,
) -> (m: int)
    requires
        excerpts_wf(es),
        0 <= k < ranges.len(),
        shows_first(es, buffer_id, ranges[k], i),
    ensures
        ({
            let shown = shown_ranges(es, buffer_id, ranges);
            &&& 0 <= m < shown.len()
            &&& is_shown_as(es, i, ranges[k], shown[m])
            &&& ranges[k].start <= ranges[k].end ==> shown[m].end <= excerpts_text(es).len()
                && excerpts_text(es).subrange(shown[m].start as int, shown[m].end as int)
                == es[i].buffer.bytes().subrange(ranges[k].start as int, ranges[k].end as int)
        }),
    decreases ranges.len(),
{
    let front = ranges.drop_last();
    let before = shown_ranges(es, buffer_id, front);
    if k < front.len() {
        let m = lemma_edited_range_told(es, buffer_id, front, k, i);
        m
    } else {
        let range = ranges[k];
        lemma_showing_first(es, buffer_id, range, 0);
        let at = showing_index(es, buffer_id, range, 0);
        if at < i {
            assert(es[at].buffer_id == buffer_id);
        }
        if i < at {
            assert(es[i].buffer_id == buffer_id);
        }
        assert(at == i);
        lemma_shown_fits(es, i, range);
        before.len() as int
    }
}

proof fn lemma_shown_fits(es: Seq<Excerpt>, i: int, range: Range<usize>)
    requires
        excerpts_wf(es),
        0 <= i < es.len(),
        es[i].start() <= range.start < es[i].end(),
        es[i].start() <= range.end < es[i].end(),
    ensures
        ({
            let a = excerpt_start(es, i) + range.start - es[i].start();
            let b = excerpt_start(es, i) + range.end - es[i].start();
            &&& 0 <= a <= excerpts_text(es).len() <= usize::MAX
            &&& 0 <= b <= excerpts_text(es).len()
            &&& a <= b ==> excerpts_text(es).subrange(a, b) == es[i].buffer.bytes().subrange(
                range.start as int,
                range.end as int,
            )
        }),
{
    let from = range.start - es[i].start();
    let to = range.end - es[i].start();
    let n = es.len() as int;
    assert(es[i].wf());
    lemma_excerpt_position(es[i], 0);
    lemma_excerpts_text_step(es, i);
    lemma_excerpt_start_grows(es, i, n);
    lemma_excerpt_start_grows(es, i + 1, n);
    assert(es.take(n) =~= es);
    if from <= to {
        lemma_text_within(es, i, from, to);
        assert(es[i].text().subrange(from, to) =~= es[i].buffer.bytes().subrange(
            range.start as int,
            range.end as int,
        ));
    }
}

/// No range is told that is not that of an edited range which an excerpt shows.
pub proof fn lemma_told_range_edited(
    es: Seq<Excerpt>,
    buffer_id: BufferId,
    ranges: Seq<Range<usize>>,
    m: int,
) -> (r: (int, int))
    requires
        excerpts_wf(es),
        0 <= m < shown_ranges(es, buffer_id, ranges).len(),
    ensures
        ({
            let (k, i) = r;
            &&& 0 <= k < ranges.len()
            &&& shows_first(es, buffer_id, ranges[k], i)
            &&& is_shown_as(es, i, ranges[k], shown_ranges(es, buffer_id, ranges)[m])
        }),
    decreases ranges.len(),
{
    let front = ranges.drop_last();
    let before = shown_ranges(es, buffer_id, front);
    if m < before.len() {
        let (k, i) = lemma_told_range_edited(es, buffer_id, front, m);
        (k, i)
    } else {
        let k = ranges.len() - 1;
        lemma_showing_first(es, buffer_id, ranges[k], 0);
        let i = showing_index(es, buffer_id, ranges[k], 0);
        lemma_shown_fits(es, i, ranges[k]);
        (k, i)
    }
}

proof fn lemma_all_shown(
    es: Seq<Excerpt>,
    entries: Seq<(BufferId, TransactionId)>,
    edited: Seq<Vec<Range<usize>>>,
    range: Range<usize>,
)
    requires
        entries.len() <= edited.len(),
    ensures
        all_shown_ranges(es, entries, edited).contains(range) <==> exists|b: int|
            0 <= b < entries.len() && (#[trigger] shown_ranges(
                es,
                entries[b].0,
                edited[b]@,
            )).contains(range),
    decreases entries.len(),
{
    if entries.len() > 0 {
        let front = entries.drop_last();
        let n = front.len() as int;
        let before = all_shown_ranges(es, front, edited);
        let own = shown_ranges(es, entries[n].0, edited[n]@);
        let all = all_shown_ranges(es, entries, edited);
        lemma_all_shown(es, front, edited, range);
        if all.contains(range) {
            let m = choose|m: int| 0 <= m < all.len() && all[m] == range;
            if m < before.len() {
                assert(before[m] == range);
                let b = choose|b: int|
                    0 <= b < front.len() && (#[trigger] shown_ranges(
                        es,
                        front[b].0,
                        edited[b]@,
                    )).contains(range);
                assert(shown_ranges(es, entries[b].0, edited[b]@).contains(range));
            } else {
                assert(own[m - before.len()] == range);
                assert(own.contains(range));
            }
        }
        if exists|b: int|
            0 <= b < entries.len() && (#[trigger] shown_ranges(
                es,
                entries[b].0,
                edited[b]@,
            )).contains(range) {
            let b = choose|b: int|
                0 <= b < entries.len() && (#[trigger] shown_ranges(
                    es,
                    entries[b].0,
                    edited[b]@,
                )).contains(range);
            if b < n {
                assert(shown_ranges(es, front[b].0, edited[b]@).contains(range));
                let m = choose|m: int| 0 <= m < before.len() && before[m] == range;
                assert(all[m] == range);
            } else {
                let m = choose|m: int| 0 <= m < own.len() && own[m] == range;
                assert(all[before.len() + m] == range);
            }
        }
    }
}

/// The ranges that a transaction edited are told in the order of their starts: those of
/// each of its buffers that excerpts show, and no others.
pub proof fn lemma_edited_ranges_told(
    es: Seq<Excerpt>,
    entries: Seq<(BufferId, TransactionId)>,
    edited: Seq<Vec<Range<usize>>>,
    range: Range<usize>,
)
    requires
        entries.len() == edited.len(),
    ensures
        ({
            let told = in_order(all_shown_ranges(es, entries, edited), ());
            &&& told.contains(range) <==> exists|b: int|
                0 <= b < entries.len() && (#[trigger] shown_ranges(
                    es,
                    entries[b].0,
                    edited[b]@,
                )).contains(range)
            &&& forall|k: int, m: int|
                0 <= k < m < told.len() ==> (#[trigger] told[k]).start <= (
                #[trigger] told[m]).start
        }),
{
    broadcast use vstd::seq_lib::group_to_multiset_ensures;

    let all = all_shown_ranges(es, entries, edited);
    let told = in_order(all, ());
    lemma_all_shown(es, entries, edited, range);
    lemma_in_order(all, ());
    if all.contains(range) {
        assert(told.to_multiset().contains(range));
    }
    if told.contains(range) {
        let m = choose|m: int| 0 <= m < told.len() && told[m] == range;
        lemma_in_order_from(all, (), m);
    }
}

/// The point of the buffer that is shown at a point is in the row that the buffer has at
/// the offset there. It is the very point that the buffer has there, save in the first row
/// of an excerpt behind the first that starts within a line.
#[verifier::rlimit(50)]
pub proof fn lemma_shown_point(snapshot: MultiBufferSnapshot, offset: usize)
    requires
        snapshot.wf(),
        snapshot.excerpts@.len() > 0,
        offset <= snapshot.bytes().len(),
    ensures
        ({
            let es = snapshot.excerpts@;
            let pos = point_at(snapshot.bytes(), offset as int);
            let i = edited_index(es, offset);
            let found = point_in_buffer(es, i, pos);
            let there = point_at(es[i].buffer.bytes(), offset_in_buffer(es, i, offset as int));
            &&& to_point(pos)@ == pos
            &&& point_index(es, to_point(pos)) == i
            &&& found.row == there.row
            &&& i == 0 || es[i].start_pos().column == 0 || there.row > es[i].start_pos().row
                ==> found == there
        }),
{
    let es = snapshot.excerpts@;
    let t = snapshot.bytes();
    let n = es.len() as int;
    let pos = point_at(t, offset as int);
    let point = to_point(pos);
    let i = edited_index(es, offset);
    lemma_shown_at(snapshot, offset);
    lemma_summary_sound(t.take(offset as int));
    lemma_seek_point(es, point, Bias::Right);
    lemma_seek_offset(es, offset, Bias::Right);
    assert(es.take(n) =~= es);
    let j = seek_index(es, point, Bias::Right, 0);
    let m = seek_index(es, offset, Bias::Right, 0);
    lemma_summary_before(es, j);
    lemma_summary_before(es, m);
    assert(j == m) by {
        if j < m {
            lemma_summary_before(es, j + 1);
            lemma_excerpt_start_grows(es, j + 1, m);
            if excerpt_start(es, j + 1) < offset {
                lemma_positions_grow(t, excerpt_start(es, j + 1), offset as int);
            }
        }
        if m < j {
            lemma_summary_before(es, m + 1);
            lemma_excerpt_start_grows(es, m + 1, j);
            lemma_positions_grow(t, offset as int, excerpt_start(es, m + 1));
            if excerpt_start(es, m + 1) < excerpt_start(es, j) {
                lemma_positions_grow(t, excerpt_start(es, m + 1), excerpt_start(es, j));
            }
        }
    }
    let k = offset - excerpt_start(es, i);
    lemma_excerpt_position(es[i], 0);
    assert(es[i].wf());
    lemma_summary_within(es, i, k);
    lemma_excerpt_rows(es, i);
    if i > 0 {
        lemma_excerpt_rows(es, i - 1);
    } else {
        assert(es.take(0) =~= Seq::<Excerpt>::empty());
        reveal(summarize);
    }
}

impl MultiBuffer {
    /// The transaction with an identifier is the first of those to undo that has it, or else
    /// the first of those to redo.
    pub proof fn lemma_transaction_found(&self, id: TransactionId)
        ensures
            ({
                let undo = self.history.undo();
                let redo = self.history.redo();
                match self.transaction_with_id(id) {
                    Some(t) => {
                        &&& t.id == id
                        &&& undo.contains(t) || redo.contains(t) && forall|k: int|
                            0 <= k < undo.len() ==> (#[trigger] undo[k]).id != id
                    },
                    None => {
                        &&& forall|k: int| 0 <= k < undo.len() ==> (#[trigger] undo[k]).id != id
                        &&& forall|k: int| 0 <= k < redo.len() ==> (#[trigger] redo[k]).id != id
                    },
                }
            }),
    {
        lemma_found_first(self.history.undo(), id, 0);
        lemma_found_first(self.history.redo(), id, 0);
    }
}

} // verus!
