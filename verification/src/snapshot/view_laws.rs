//! What holds of excerpts that are seen from the multibuffer.

use std::ops::Range;
use vstd::prelude::*;

use crate::anchor::Anchor;
use crate::buffer::{resolved, TextAnchor};
use crate::excerpt::{
    excerpt_start, excerpts_text, lemma_excerpt_position, lemma_excerpt_start_grows,
    lemma_excerpts_text_step, lemma_text_within, Excerpt,
};
use crate::multi_buffer::edit::edited_index;
use crate::multi_buffer::edit_laws::touches_excerpt;
use crate::multi_buffer::query_laws::lemma_shown_at;
use crate::snapshot::annotations::{
    all_guides, all_runnables, anchor_in, first_runnable, guide_in_text, query_of, row_in_text,
    runnable_past, shown_runnables, trimmed_runnables, IndentGuide, RemoteSelection, RunnableRange,
};
use crate::snapshot::convert::lemma_summary_within;
use crate::snapshot::excerpt_view::{starting_from, MultiBufferExcerpt};
use crate::snapshot::language::{
    all_trimmed, first_past, first_reaching, nearest_in_text, range_in_text, ranges_in_text,
    shown_pairs, shows_between, trimmed,
};
use crate::snapshot::lines::lemma_excerpt_rows;
use crate::snapshot::ranges::nearest_in_buffer;
use crate::snapshot::{excerpts_wf, lemma_seek_offset, seek_index, MultiBufferSnapshot};
use crate::text::{lemma_summary_sound, point_at, Bias};

verus! {

proof fn lemma_starting_from(es: Seq<Excerpt>, offset: int, from: int)
    requires
        0 <= from <= es.len(),
    ensures
        ({
            let to = starting_from(es, offset, from);
            &&& from <= to <= es.len()
            &&& forall|m: int| from <= m < to ==> #[trigger] excerpt_start(es, m) < offset
            &&& forall|m: int| to <= m < es.len() ==> #[trigger] excerpt_start(es, m) >= offset
        }),
    decreases es.len() - from,
{
    if from < es.len() {
        if excerpt_start(es, from) >= offset {
            assert forall|m: int| from <= m < es.len() implies #[trigger] excerpt_start(es, m)
                >= offset by {
                lemma_excerpt_start_grows(es, from, m);
            }
        } else {
            lemma_starting_from(es, offset, from + 1);
        }
    }
}

impl MultiBufferSnapshot {
    /// The excerpts that a range reaches into are just those of whose text, with the line
    /// break behind it, some lies behind the start of the range, and that start before its
    /// end.
    pub proof fn lemma_reached_excerpts(&self, start: usize, end: usize, m: int)
        requires
            self.wf(),
            start <= self.bytes().len(),
            0 <= m < self.excerpts@.len(),
        ensures
            ({
                let es = self.excerpts@;
                let from = seek_index(es, start, Bias::Right, 0);
                let to = starting_from(es, end as int, from);
                &&& from == self.range_from(start as int)
                &&& to == self.range_to(start as int, end as int)
                &&& 0 <= from <= to <= es.len()
                &&& from <= m < to <==> start < excerpt_start(es, m + 1) && excerpt_start(es, m)
                    < end
            }),
    {
        let es = self.excerpts@;
        let from = seek_index(es, start, Bias::Right, 0);
        lemma_seek_offset(es, start, Bias::Right);
        lemma_starting_from(es, end as int, from);
        if m < from {
            lemma_excerpt_start_grows(es, m + 1, from);
        } else {
            lemma_excerpt_start_grows(es, from + 1, m + 1);
        }
    }

    /// Backwards from the end of a range come the excerpts that start before that end, and
    /// the first excerpt in any case.
    pub proof fn lemma_reached_backwards(&self, end: usize, m: int)
        requires
            self.wf(),
            end <= self.bytes().len(),
            0 <= m < self.excerpts@.len(),
        ensures
            ({
                let es = self.excerpts@;
                let i = seek_index(es, end, Bias::Left, 0);
                &&& 0 <= i < es.len()
                &&& m <= i <==> m == 0 || excerpt_start(es, m) < end
            }),
    {
        let es = self.excerpts@;
        let i = seek_index(es, end, Bias::Left, 0);
        lemma_seek_offset(es, end, Bias::Left);
        if m <= i {
            lemma_excerpt_start_grows(es, m, i);
        } else {
            lemma_excerpt_start_grows(es, i + 1, m);
        }
    }

    /// The excerpt that contains a range is the one that both its ends touch, and there is
    /// none where they touch different ones.
    pub proof fn lemma_containing(&self, start: usize, end: usize, m: int)
        requires
            self.wf(),
            start <= self.bytes().len(),
            end <= self.bytes().len(),
            0 <= m < self.excerpts@.len(),
        ensures
            self.containing_index(start as int, end as int) == m <==> touches_excerpt(
                self.excerpts@,
                m,
                Range { start, end: start },
            ) && touches_excerpt(self.excerpts@, m, Range { start: end, end }),
            -1 <= self.containing_index(start as int, end as int) < self.excerpts@.len(),
    {
        lemma_shown_at(*self, start);
        lemma_shown_at(*self, end);
        let es = self.excerpts@;
        assert(touches_excerpt(es, m, Range { start, end: start }) <==> m == edited_index(
            es,
            start,
        ));
        assert(touches_excerpt(es, m, Range { start: end, end }) <==> m == edited_index(es, end));
    }
}

/// A range of a buffer, as far as an excerpt shows it, is mapped to where the same text
/// stands in the multibuffer; what the excerpt does not show is mapped to its ends.
pub proof fn lemma_range_in_text(es: Seq<Excerpt>, i: int, range: Range<usize>)
    requires
        excerpts_wf(es),
        0 <= i < es.len(),
    ensures
        ({
            let r = range_in_text(es, i, range);
            let from = excerpt_start(es, i);
            let to = from + es[i].bytes().len();
            &&& range.start <= es[i].start() ==> r.start == from
            &&& es[i].start() <= range.start <= es[i].end() ==> r.start - from == range.start
                - es[i].start()
            &&& range.start >= es[i].end() ==> r.start == to
            &&& range.end <= es[i].start() ==> r.end == from
            &&& es[i].start() <= range.end <= es[i].end() ==> r.end - from == range.end
                - es[i].start()
            &&& range.end >= es[i].end() ==> r.end == to
            &&& es[i].start() <= range.start <= range.end <= es[i].end() ==> excerpts_text(
                es,
            ).subrange(r.start as int, r.end as int) == es[i].buffer.bytes().subrange(
                range.start as int,
                range.end as int,
            )
        }),
{
    let n = es.len() as int;
    assert(es[i].wf());
    lemma_excerpt_position(es[i], 0);
    lemma_excerpts_text_step(es, i);
    lemma_excerpt_start_grows(es, i, n);
    lemma_excerpt_start_grows(es, i + 1, n);
    assert(es.take(n) =~= es);
    if es[i].start() <= range.start <= range.end <= es[i].end() {
        let a = range.start - es[i].start();
        let b = range.end - es[i].start();
        lemma_text_within(es, i, a, b);
        assert(es[i].text().subrange(a, b) =~= es[i].buffer.bytes().subrange(
            range.start as int,
            range.end as int,
        ));
    }
}

/// An offset of the text, as far as an excerpt shows it, is mapped to where the same text
/// stands in the buffer, and back; what lies before or behind is mapped to its ends.
pub proof fn lemma_nearest_in_buffer(es: Seq<Excerpt>, i: int, offset: int)
    requires
        excerpts_wf(es),
        0 <= i < es.len(),
    ensures
        ({
            let o = nearest_in_buffer(es, i, offset);
            let from = excerpt_start(es, i);
            let to = from + es[i].bytes().len();
            &&& es[i].start() <= o <= es[i].end()
            &&& offset <= from ==> o == es[i].start()
            &&& from <= offset <= to ==> o - es[i].start() == offset - from && nearest_in_text(
                es,
                i,
                o,
            ) == offset
            &&& offset >= to ==> o == es[i].end()
        }),
{
    assert(es[i].wf());
    lemma_excerpt_position(es[i], 0);
}

/// Seen from the multibuffer, an offset in an excerpt lies as far behind the start of the
/// excerpt as it lies in the buffer behind the start of what is shown; what lies before or
/// behind is mapped to the ends.
pub proof fn lemma_view_offsets(view: &MultiBufferExcerpt<'_>, offset: int)
    requires
        view.wf(),
    ensures
        ({
            let from = view.excerpt_offset;
            let len = view.excerpt.bytes().len();
            let start = view.excerpt.start();
            &&& offset <= from ==> view.to_buffer(offset) == start
            &&& from <= offset <= from + len ==> view.to_buffer(offset) - start == offset - from
            &&& offset >= from + len ==> view.to_buffer(offset) == view.excerpt.end()
            &&& offset <= start ==> view.from_buffer(offset) == from
            &&& start <= offset <= start + len ==> view.from_buffer(offset) - from == offset - start
            &&& offset >= start + len ==> view.from_buffer(offset) == from + len
        }),
{
    assert(view.excerpt.wf());
    assert(view.excerpt.buffer.wf());
    lemma_excerpt_position(*view.excerpt, 0);
}

/// An excerpt shows all between two ranges of its buffer just where it shows the start of
/// the first and the end of the second.
pub proof fn lemma_shows_between(
    es: Seq<Excerpt>,
    i: int,
    open: Range<usize>,
    close: Range<usize>,
)
    ensures
        shows_between(es, i, open, close) <==> es[i].start() <= open.start && close.end
            <= es[i].end(),
{
}

/// Of pairs of ranges just those are kept that an excerpt shows from the start of the
/// first to the end of the second, in their order.
pub proof fn lemma_shown_pairs(
    es: Seq<Excerpt>,
    i: int,
    pairs: Seq<(Range<usize>, Range<usize>)>,
)
    ensures
        shown_pairs(es, i, pairs) == pairs.filter(
            |pair: (Range<usize>, Range<usize>)|
                es[i].start() <= pair.0.start && pair.1.end <= es[i].end(),
        ).map_values(
            |pair: (Range<usize>, Range<usize>)|
                (range_in_text(es, i, pair.0), range_in_text(es, i, pair.1)),
        ),
    decreases pairs.len(),
{
    reveal(Seq::filter);
    let shown = |pair: (Range<usize>, Range<usize>)|
        es[i].start() <= pair.0.start && pair.1.end <= es[i].end();
    let told = |pair: (Range<usize>, Range<usize>)|
        (range_in_text(es, i, pair.0), range_in_text(es, i, pair.1));
    if pairs.len() > 0 {
        lemma_shown_pairs(es, i, pairs.drop_last());
        assert(pairs.filter(shown).map_values(told) =~= shown_pairs(es, i, pairs));
    } else {
        assert(pairs.filter(shown).map_values(told) =~= shown_pairs(es, i, pairs));
    }
}

proof fn lemma_first_reaching(ranges: Seq<Range<usize>>, start: int, from: int)
    requires
        0 <= from <= ranges.len(),
    ensures
        ({
            let k = first_reaching(ranges, start, from);
            &&& from <= k <= ranges.len()
            &&& forall|j: int| from <= j < k ==> (#[trigger] ranges[j]).end < start
            &&& k < ranges.len() ==> ranges[k].end >= start
        }),
    decreases ranges.len() - from,
{
    if from < ranges.len() && ranges[from].end < start {
        lemma_first_reaching(ranges, start, from + 1);
    }
}

proof fn lemma_first_past(ranges: Seq<Range<usize>>, end: int, from: int)
    requires
        0 <= from <= ranges.len(),
    ensures
        ({
            let k = first_past(ranges, end, from);
            &&& from <= k <= ranges.len()
            &&& forall|j: int| from <= j < k ==> (#[trigger] ranges[j]).start < end
            &&& k < ranges.len() ==> ranges[k].start >= end
        }),
    decreases ranges.len() - from,
{
    if from < ranges.len() && ranges[from].start < end {
        lemma_first_past(ranges, end, from + 1);
    }
}

/// Of ranges that start and end each no earlier than the one before, just those are kept
/// that do not end before a stretch and start before its end.
pub proof fn lemma_trimmed(ranges: Seq<Range<usize>>, start: int, end: int) -> (from: int)
    requires
        forall|a: int, b: int|
            0 <= a < b < ranges.len() ==> (#[trigger] ranges[a]).start <= (
            #[trigger] ranges[b]).start && ranges[a].end <= ranges[b].end,
    ensures
        ({
            let r = trimmed(ranges, start, end);
            &&& 0 <= from
            &&& from + r.len() <= ranges.len()
            &&& r == ranges.subrange(from, from + r.len())
            &&& forall|k: int|
                0 <= k < ranges.len() ==> ((#[trigger] ranges[k]).end >= start && ranges[k].start
                    < end ==> from <= k < from + r.len())
            &&& forall|k: int|
                from <= k < from + r.len() ==> (#[trigger] ranges[k]).end >= start
                    && ranges[k].start < end
        }),
{
    let from = first_reaching(ranges, start, 0);
    lemma_first_reaching(ranges, start, 0);
    lemma_first_past(ranges, end, from);
    let to = first_past(ranges, end, from);
    assert forall|k: int| from <= k < to implies (#[trigger] ranges[k]).end >= start
        && ranges[k].start < end by {
        if from < k {
            assert(ranges[from].end <= ranges[k].end);
        }
    }
    assert forall|k: int|
        0 <= k < ranges.len() && (#[trigger] ranges[k]).end >= start && ranges[k].start
            < end implies from <= k < to by {
        if k >= to && to < ranges.len() {
            if to < k {
                assert(ranges[to].start <= ranges[k].start);
            }
        }
    }
    from
}

/// What is to be redacted is told of each excerpt that the range reaches into, one after
/// the other: what its buffer said, trimmed to the range.
pub proof fn lemma_all_trimmed(
    es: Seq<Excerpt>,
    from: int,
    to: int,
    replies: Seq<Vec<Range<usize>>>,
    start: int,
    end: int,
    m: int,
)
    requires
        from <= m < to,
    ensures
        ({
            let all = all_trimmed(es, from, to, replies, start, end);
            let before = all_trimmed(es, from, m, replies, start, end).len() as int;
            let own = trimmed(ranges_in_text(es, m, replies[m - from]@), start, end);
            &&& before + own.len() <= all.len()
            &&& all.subrange(before, before + own.len()) == own
            &&& m == to - 1 ==> before + own.len() == all.len()
        }),
    decreases to - from,
{
    let all = all_trimmed(es, from, to, replies, start, end);
    let front = all_trimmed(es, from, to - 1, replies, start, end);
    let own = trimmed(ranges_in_text(es, m, replies[m - from]@), start, end);
    if m < to - 1 {
        lemma_all_trimmed(es, from, to - 1, replies, start, end, m);
        let before = all_trimmed(es, from, m, replies, start, end).len() as int;
        assert(all.subrange(before, before + own.len()) =~= front.subrange(
            before,
            before + own.len(),
        ));
    } else {
        assert(all.subrange(front.len() as int, all.len() as int) =~= own);
    }
}

/// A runnable is shown just where the excerpt shows the start of what it is run from, and
/// the row that this ends in: in its order, under its number, and where it stands in the
/// text.
pub proof fn lemma_shown_runnables(
    es: Seq<Excerpt>,
    i: int,
    excerpt: int,
    run_ranges: Seq<Range<usize>>,
    runnable: RunnableRange,
)
    requires
        run_ranges.len() <= usize::MAX,
    ensures
        shown_runnables(es, i, excerpt, run_ranges).contains(runnable) <==> ({
            let k = runnable.number as int;
            &&& k < run_ranges.len()
            &&& runnable.excerpt == excerpt as usize
            &&& runnable.run_range == range_in_text(es, i, run_ranges[k])
            &&& run_ranges[k].start >= es[i].start()
            &&& point_at(es[i].buffer.bytes(), run_ranges[k].end as int).row
                <= es[i].max_buffer_row
        }),
    decreases run_ranges.len(),
{
    let r = shown_runnables(es, i, excerpt, run_ranges);
    if run_ranges.len() > 0 {
        let front = run_ranges.drop_last();
        let before = shown_runnables(es, i, excerpt, front);
        let n = front.len() as int;
        lemma_shown_runnables(es, i, excerpt, front, runnable);
        if before.contains(runnable) {
            let a = choose|a: int| 0 <= a < before.len() && before[a] == runnable;
            assert(r[a] == runnable);
        }
        if r.contains(runnable) && !before.contains(runnable) {
            let a = choose|a: int| 0 <= a < r.len() && r[a] == runnable;
            assert(a < before.len() ==> before[a] == runnable);
            assert(runnable.number == n);
        }
        if runnable.number == n && r.len() > before.len() && r[before.len() as int] == runnable {
            assert(r.contains(runnable));
        }
        if r.len() == before.len() {
            assert(r =~= before);
        }
    }
}

proof fn lemma_first_runnable(runnables: Seq<RunnableRange>, start: int, from: int)
    requires
        0 <= from <= runnables.len(),
    ensures
        ({
            let k = first_runnable(runnables, start, from);
            &&& from <= k <= runnables.len()
            &&& forall|j: int| from <= j < k ==> (#[trigger] runnables[j]).run_range.end < start
            &&& k < runnables.len() ==> runnables[k].run_range.end >= start
        }),
    decreases runnables.len() - from,
{
    if from < runnables.len() && runnables[from].run_range.end < start {
        lemma_first_runnable(runnables, start, from + 1);
    }
}

proof fn lemma_runnable_past(runnables: Seq<RunnableRange>, end: int, from: int)
    requires
        0 <= from <= runnables.len(),
    ensures
        ({
            let k = runnable_past(runnables, end, from);
            &&& from <= k <= runnables.len()
            &&& forall|j: int| from <= j < k ==> (#[trigger] runnables[j]).run_range.start < end
            &&& k < runnables.len() ==> runnables[k].run_range.start >= end
        }),
    decreases runnables.len() - from,
{
    if from < runnables.len() && runnables[from].run_range.start < end {
        lemma_runnable_past(runnables, end, from + 1);
    }
}

/// Of runnables that start and end each no earlier than the one before, just those are kept
/// that do not end before a stretch and start before its end.
pub proof fn lemma_trimmed_runnables(runnables: Seq<RunnableRange>, start: int, end: int) -> (from:
    int)
    requires
        forall|a: int, b: int|
            0 <= a < b < runnables.len() ==> (#[trigger] runnables[a]).run_range.start <= (
            #[trigger] runnables[b]).run_range.start && runnables[a].run_range.end
                <= runnables[b].run_range.end,
    ensures
        ({
            let r = trimmed_runnables(runnables, start, end);
            &&& 0 <= from
            &&& from + r.len() <= runnables.len()
            &&& r == runnables.subrange(from, from + r.len())
            &&& forall|k: int|
                0 <= k < runnables.len() ==> ((#[trigger] runnables[k]).run_range.end >= start
                    && runnables[k].run_range.start < end ==> from <= k < from + r.len())
            &&& forall|k: int|
                from <= k < from + r.len() ==> (#[trigger] runnables[k]).run_range.end >= start
                    && runnables[k].run_range.start < end
        }),
{
    let from = first_runnable(runnables, start, 0);
    lemma_first_runnable(runnables, start, 0);
    lemma_runnable_past(runnables, end, from);
    let to = runnable_past(runnables, end, from);
    assert forall|k: int| from <= k < to implies (#[trigger] runnables[k]).run_range.end >= start
        && runnables[k].run_range.start < end by {
        if from < k {
            assert(runnables[from].run_range.end <= runnables[k].run_range.end);
        }
    }
    assert forall|k: int|
        0 <= k < runnables.len() && (#[trigger] runnables[k]).run_range.end >= start
            && runnables[k].run_range.start < end implies from <= k < to by {
        if k >= to && to < runnables.len() {
            if to < k {
                assert(runnables[to].run_range.start <= runnables[k].run_range.start);
            }
        }
    }
    from
}

/// What can be run is told of each excerpt that the range reaches into, one after the other:
/// what it shows, trimmed to the range.
pub proof fn lemma_all_runnables(
    es: Seq<Excerpt>,
    from: int,
    to: int,
    replies: Seq<Vec<Range<usize>>>,
    start: int,
    end: int,
    m: int,
)
    requires
        from <= m < to,
    ensures
        ({
            let all = all_runnables(es, from, to, replies, start, end);
            let before = all_runnables(es, from, m, replies, start, end).len() as int;
            let own = trimmed_runnables(
                shown_runnables(es, m, m - from, replies[m - from]@),
                start,
                end,
            );
            &&& before + own.len() <= all.len()
            &&& all.subrange(before, before + own.len()) == own
            &&& m == to - 1 ==> before + own.len() == all.len()
        }),
    decreases to - from,
{
    let all = all_runnables(es, from, to, replies, start, end);
    let front = all_runnables(es, from, to - 1, replies, start, end);
    let own = trimmed_runnables(shown_runnables(es, m, m - from, replies[m - from]@), start, end);
    if m < to - 1 {
        lemma_all_runnables(es, from, to - 1, replies, start, end, m);
        let before = all_runnables(es, from, m, replies, start, end).len() as int;
        assert(all.subrange(before, before + own.len()) =~= front.subrange(
            before,
            before + own.len(),
        ));
    } else {
        assert(all.subrange(front.len() as int, all.len() as int) =~= own);
    }
}

/// A row of the buffer that an excerpt shows is mapped to the row of the text in which the
/// same stands.
pub proof fn lemma_row_in_text(snapshot: MultiBufferSnapshot, i: int, k: int)
    requires
        snapshot.wf(),
        0 <= i < snapshot.excerpts@.len(),
        0 <= k <= snapshot.excerpts@[i].bytes().len(),
    ensures
        ({
            let es = snapshot.excerpts@;
            let row = point_at(es[i].buffer.bytes(), es[i].start() + k).row;
            row_in_text(es, i, row as u32) == point_at(
                snapshot.bytes(),
                excerpt_start(es, i) + k,
            ).row
        }),
{
    let es = snapshot.excerpts@;
    assert(es[i].wf());
    lemma_excerpt_position(es[i], 0);
    lemma_summary_within(es, i, k);
    lemma_excerpt_rows(es, i);
    lemma_summary_sound(es[i].buffer.bytes().take(es[i].start() + k));
}

/// The indent guides of each excerpt come one after the other: each as its buffer told it,
/// in the rows of the text in which it stands.
pub proof fn lemma_all_guides<S>(
    es: Seq<Excerpt>,
    from: int,
    to: int,
    replies: Seq<Vec<IndentGuide<S>>>,
    m: int,
    k: int,
)
    requires
        from <= m < to,
        0 <= k < replies[m - from]@.len(),
    ensures
        ({
            let all = all_guides(es, from, to, replies);
            let p = all_guides(es, from, m, replies).len() + k;
            let guide = replies[m - from]@[k];
            &&& 0 <= p < all.len()
            &&& all[p].buffer == guide
            &&& all[p].multibuffer_row_range.start.0 == row_in_text(es, m, guide.start_row) as u32
            &&& all[p].multibuffer_row_range.end.0 == row_in_text(es, m, guide.end_row) as u32
            &&& m == to - 1 ==> all.len() == all_guides(es, from, m, replies).len()
                + replies[m - from]@.len()
        }),
    decreases to - from,
{
    let all = all_guides(es, from, to, replies);
    let front = all_guides(es, from, to - 1, replies);
    if m < to - 1 {
        lemma_all_guides(es, from, to - 1, replies, m, k);
    } else {
        assert(all[front.len() + k] == guide_in_text(es, m, replies[m - from]@[k]));
    }
}

impl MultiBufferSnapshot {
    /// A position in a buffer, as an anchor in an excerpt of it, lies where the excerpt shows
    /// the position, or at the nearest end of the excerpt.
    pub proof fn lemma_anchor_in(&self, i: int, text_anchor: TextAnchor)
        requires
            self.wf(),
            0 <= i < self.excerpts@.len(),
        ensures
            ({
                let es = self.excerpts@;
                let anchor = anchor_in(es, i, text_anchor);
                let o = resolved(text_anchor, es[i].buffer.bytes().len() as int);
                &&& anchor.excerpt_id == es[i].id
                &&& anchor.buffer_id == Some(es[i].buffer_id)
                &&& self.anchor_offset(anchor) == nearest_in_text(es, i, o)
                &&& es[i].start() < o < es[i].end() ==> anchor.text_anchor == text_anchor
            }),
    {
        let es = self.excerpts@;
        let anchor = anchor_in(es, i, text_anchor);
        assert(es[i].wf());
        lemma_excerpt_position(es[i], 0);
        self.lemma_excerpt_id(i);
    }

    /// A remote selection that is cut to a range is the same selection. It starts at its own
    /// start, or where that comes before the range at the start of the range; and ends at
    /// its own end, or where that comes behind the range at the end of the range.
    pub proof fn lemma_cut_selection<G, C>(
        &self,
        i: int,
        range: Range<Anchor>,
        selection: RemoteSelection<TextAnchor, G, C>,
    )
        ensures
            ({
                let e = self.excerpts@[i];
                let r = self.cut_selection(i, range, selection);
                let start = Anchor {
                    buffer_id: Some(e.buffer_id),
                    excerpt_id: e.id,
                    text_anchor: selection.selection.start,
                };
                let end = Anchor {
                    buffer_id: Some(e.buffer_id),
                    excerpt_id: e.id,
                    text_anchor: selection.selection.end,
                };
                &&& r.replica_id == selection.replica_id
                &&& r.line_mode == selection.line_mode
                &&& r.cursor_shape == selection.cursor_shape
                &&& r.selection.id == selection.selection.id
                &&& r.selection.reversed == selection.selection.reversed
                &&& r.selection.goal == selection.selection.goal
                &&& self.anchor_before_anchor(start, range.start) ==> r.selection.start
                    == range.start
                &&& !self.anchor_before_anchor(start, range.start) ==> r.selection.start == start
                &&& self.anchor_before_anchor(range.end, end) ==> r.selection.end == range.end
                &&& !self.anchor_before_anchor(range.end, end) ==> r.selection.end == end
            }),
    {
    }

    /// The remote selections of each excerpt come one after the other, each cut to the
    /// range.
    pub proof fn lemma_cut_selections<G, C>(
        &self,
        from: int,
        to: int,
        range: Range<Anchor>,
        replies: Seq<Vec<RemoteSelection<TextAnchor, G, C>>>,
        m: int,
        k: int,
    )
        requires
            from <= m < to,
            0 <= k < replies[m - from]@.len(),
        ensures
            ({
                let all = self.cut_selections(from, to, range, replies);
                let before = self.cut_selections(from, m, range, replies).len() as int;
                &&& before + k < all.len()
                &&& all[before + k] == self.cut_selection(m, range, replies[m - from]@[k])
                &&& m == to - 1 ==> all.len() == before + replies[m - from]@.len()
            }),
        decreases to - from,
    {
        if m < to - 1 {
            self.lemma_cut_selections(from, to - 1, range, replies, m, k);
        }
    }
}

/// What is asked of an excerpt starts and ends where the range does, or else where the
/// excerpt does.
pub proof fn lemma_query(e: Excerpt, range: Range<Anchor>)
    ensures
        ({
            let r = query_of(e, range);
            &&& e.id == range.start.excerpt_id ==> r.start == range.start.text_anchor
            &&& e.id != range.start.excerpt_id ==> r.start == e.range.context.start
            &&& e.id == range.end.excerpt_id ==> r.end == range.end.text_anchor
            &&& e.id != range.end.excerpt_id ==> r.end == e.range.context.end
        }),
{
}

} // verus!
