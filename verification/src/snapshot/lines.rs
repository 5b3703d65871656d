//! The lines of a multibuffer.

use std::ops::Range;
use vstd::prelude::*;
use vstd::utf8::{decode_utf8, encode_utf8, encode_utf8_decode_utf8};

use crate::buffer::{row_end, row_start, BufferId, BufferSnapshot};
use crate::excerpt::{
    excerpt_start, excerpts_text, lemma_excerpt_position, lemma_excerpts_text_step, Excerpt,
    MultiBufferRow,
};
use crate::snapshot::{
    excerpts_wf, lemma_excerpt_starts_row, lemma_seek_point, seek_index, MultiBufferSnapshot,
};
use crate::text::{
    is_boundary, lemma_join_parts, lemma_positions_grow, lemma_summary_sound, point_at, summarize,
    Bias, Point, Pos, MAX_TEXT_LEN, NEWLINE,
};

verus! {

/// The first row of the `i`-th excerpt.
pub open spec fn first_row(es: Seq<Excerpt>, i: int) -> int {
    summarize(excerpts_text(es.take(i))).lines.row
}

/// The last row of the `i`-th excerpt.
pub open spec fn last_row(es: Seq<Excerpt>, i: int) -> int {
    first_row(es, i) + summarize(es[i].bytes()).lines.row
}

/// Which rows an excerpt fills, and what follows it.
pub proof fn lemma_excerpt_rows(es: Seq<Excerpt>, i: int)
    requires
        excerpts_wf(es),
        0 <= i < es.len(),
    ensures
        ({
            let e = es[i];
            let lines = summarize(e.bytes()).lines;
            let after = summarize(excerpts_text(es.take(i + 1))).lines;
            &&& summarize(excerpts_text(es.take(i))).lines.column == 0
            &&& 0 <= first_row(es, i)
            &&& 0 <= lines.row
            &&& 0 <= lines.column
            &&& i < es.len() - 1 ==> after == Pos { row: last_row(es, i) + 1, column: 0 }
            &&& i == es.len() - 1 ==> after == Pos { row: last_row(es, i), column: lines.column }
            &&& point_at(e.buffer.bytes(), e.end()) == e.start_pos().plus(lines)
            &&& e.max_buffer_row == e.start_pos().row + lines.row
            &&& 0 <= e.start_pos().row
            &&& 0 <= e.start_pos().column
        }),
{
    let e = es[i];
    assert(e.wf());
    let before = summarize(excerpts_text(es.take(i)));
    lemma_excerpt_starts_row(es, i);
    lemma_excerpts_text_step(es, i);
    lemma_join_parts(before, summarize(e.text()));
    lemma_summary_sound(e.bytes());
    lemma_summary_sound(excerpts_text(es.take(i)));
    lemma_summary_sound(e.buffer.bytes().take(e.start()));
    let n = e.bytes().len() as int;
    lemma_excerpt_position(e, n);
    lemma_join_parts(summarize(e.buffer.bytes().take(e.start())), summarize(e.bytes()));
    assert(e.bytes().take(n) =~= e.bytes());
    assert(e.has_trailing_newline == (i < es.len() - 1));
    if e.has_trailing_newline {
        reveal(summarize);
        assert(e.text().drop_last() =~= e.bytes());
        assert(e.text().last() == NEWLINE);
    } else {
        assert(e.text() =~= e.bytes());
    }
}

impl MultiBufferSnapshot {
    /// The excerpt that shows a row, or the number of excerpts.
    pub open spec fn line_index(&self, row: u32) -> int {
        let es = self.excerpts@;
        let i = seek_index(es, Point { row, column: 0 }, Bias::Right, 0);
        if i == es.len() && es.len() > 0 && summarize(self.bytes()).lines == (Pos {
            row: row as int,
            column: 0,
        }) {
            i - 1
        } else {
            i
        }
    }

    /// The row of the buffer that is shown in a row of the `i`-th excerpt.
    pub open spec fn buffer_row(&self, i: int, row: int) -> int {
        self.excerpts@[i].start_pos().row + row - first_row(self.excerpts@, i)
    }

    /// Where the part of a line that the `i`-th excerpt shows starts in its buffer.
    pub open spec fn line_start_in_buffer(&self, i: int, row: int) -> int {
        let e = self.excerpts@[i];
        let start = row_start(e.buffer.bytes(), self.buffer_row(i, row) as u32);
        if start < e.start() {
            e.start()
        } else {
            start
        }
    }

    /// Where the part of a line that the `i`-th excerpt shows ends in its buffer.
    pub open spec fn line_end_in_buffer(&self, i: int, row: int) -> int {
        let e = self.excerpts@[i];
        let end = row_end(e.buffer.bytes(), self.buffer_row(i, row) as u32);
        if end > e.end() {
            e.end()
        } else {
            end
        }
    }

    /// Where a row is shown.
    pub proof fn lemma_line(&self, row: u32)
        requires
            self.wf(),
            self.line_index(row) < self.excerpts@.len(),
        ensures
            ({
                let es = self.excerpts@;
                let i = self.line_index(row);
                let e = es[i];
                let start = self.line_start_in_buffer(i, row as int);
                let end = self.line_end_in_buffer(i, row as int);
                let line = Point {
                    row: self.buffer_row(i, row as int) as u32,
                    column: 0,
                };
                let len = row_end(e.buffer.bytes(), line.row) - row_start(
                    e.buffer.bytes(),
                    line.row,
                );
                &&& 0 <= i
                &&& first_row(es, i) <= row <= last_row(es, i)
                &&& e.start_pos().row <= self.buffer_row(i, row as int) <= e.max_buffer_row
                &&& e.start() <= start <= end <= e.end()
                &&& is_boundary(e.buffer.bytes(), start)
                &&& is_boundary(e.buffer.bytes(), end)
                &&& point_at(e.buffer.bytes(), start) == line@.later(e.start_pos())
                &&& point_at(e.buffer.bytes(), end) == (Pos { row: line@.row, column: len }).earlier(
                    point_at(e.buffer.bytes(), e.end()),
                )
                &&& point_at(e.buffer.bytes(), end).column - point_at(
                    e.buffer.bytes(),
                    start,
                ).column == end - start
            }),
    {
        let es = self.excerpts@;
        let point = Point { row, column: 0 };
        let i = self.line_index(row);
        lemma_seek_point(es, point, Bias::Right);
        assert(es.take(es.len() as int) =~= es);
        lemma_excerpt_rows(es, i);
        let e = es[i];
        assert(e.wf());
        let t = e.buffer.bytes();
        let brow = self.buffer_row(i, row as int);
        lemma_summary_sound(t.take(e.end()));
        lemma_summary_sound(t);
        assert(t.take(t.len() as int) =~= t);
        if e.end() < t.len() {
            lemma_positions_grow(t, e.end(), t.len() as int);
        }
        e.buffer.lemma_row(brow as u32);
        let rs = row_start(t, brow as u32);
        let re = row_end(t, brow as u32);
        lemma_order(t, rs, e.start());
        lemma_order(t, re, e.end());
        lemma_order(t, rs, e.end());
        lemma_order(t, e.start(), re);
        lemma_order(t, e.start(), e.end());
        lemma_past_line_end(t, re, e.start());
        lemma_past_line_end(t, re, e.end());
        lemma_columns(t, self.line_start_in_buffer(i, row as int), self.line_end_in_buffer(
            i,
            row as int,
        ));
    }
}

/// Positions are ordered as offsets are.
proof fn lemma_order(t: Seq<u8>, a: int, b: int)
    requires
        0 <= a <= t.len(),
        0 <= b <= t.len(),
    ensures
        a < b ==> point_at(t, a).before(point_at(t, b)),
        b < a ==> point_at(t, b).before(point_at(t, a)),
{
    if a < b {
        lemma_positions_grow(t, a, b);
    }
    if b < a {
        lemma_positions_grow(t, b, a);
    }
}

/// Behind the end of a line the next row starts.
pub proof fn lemma_past_line_end(t: Seq<u8>, end: int, a: int)
    requires
        0 <= end <= t.len(),
        0 <= a <= t.len(),
        end == t.len() || t[end] == NEWLINE,
    ensures
        a > end ==> point_at(t, a).row > point_at(t, end).row,
{
    if a > end {
        reveal(summarize);
        assert(t.take(end + 1).drop_last() =~= t.take(end));
        assert(t.take(end + 1).last() == NEWLINE);
        lemma_order(t, end + 1, a);
    }
}

/// Within a row columns grow with the offsets.
pub proof fn lemma_columns(t: Seq<u8>, a: int, b: int)
    requires
        0 <= a <= b <= t.len(),
        point_at(t, a).row == point_at(t, b).row,
    ensures
        point_at(t, b).column - point_at(t, a).column == b - a,
    decreases b - a,
{
    if a < b {
        reveal(summarize);
        assert(t.take(b).drop_last() =~= t.take(b - 1));
        assert(t.take(b).last() == t[b - 1]);
        lemma_order(t, a, b - 1);
        lemma_order(t, b - 1, b);
        lemma_columns(t, a, b - 1);
    }
}

impl MultiBufferSnapshot {
    /// The buffer that is shown in a row, and the part of its line that is shown.
    pub fn buffer_line_for_row(&self, row: MultiBufferRow) -> (r: Option<
        (&BufferSnapshot, Range<Point>),
    >)
        requires
            self.wf(),
        ensures
            match r {
                Some((buffer, range)) => {
                    let i = self.line_index(row.0);
                    let e = self.excerpts@[i];
                    &&& 0 <= i < self.excerpts@.len()
                    &&& *buffer == *e.buffer
                    &&& range.start@ == point_at(
                        e.buffer.bytes(),
                        self.line_start_in_buffer(i, row.0 as int),
                    )
                    &&& range.end@ == point_at(
                        e.buffer.bytes(),
                        self.line_end_in_buffer(i, row.0 as int),
                    )
                    &&& range.end.column - range.start.column == self.line_end_in_buffer(
                        i,
                        row.0 as int,
                    ) - self.line_start_in_buffer(i, row.0 as int)
                    &&& range.start.column <= range.end.column
                    &&& range.start.row == self.buffer_row(i, row.0 as int)
                },
                None => self.line_index(row.0) == self.excerpts@.len(),
            },
    {
        let ghost es = self.excerpts@;
        let point = Point { row: row.0, column: 0 };
        let mut cursor = self.seek(&point, Bias::Right);
        proof {
            assert(es.take(es.len() as int) =~= es);
            if self.line_index(row.0) < es.len() {
                self.lemma_line(row.0);
            }
        }
        if cursor.index == self.excerpts.len() && cursor.start.lines.row == row.0
            && cursor.start.lines.column == 0 && cursor.index > 0 {
            cursor = self.cursor_at(cursor.index - 1);
        }
        if cursor.index < self.excerpts.len() {
            let excerpt = &self.excerpts[cursor.index];
            proof {
                lemma_excerpt_rows(es, cursor.index as int);
                assert(es[cursor.index as int].wf());
            }
            let overshoot: u32 = row.0 - cursor.start.lines.row;
            let excerpt_start = excerpt.buffer_start_point();
            let excerpt_end = excerpt.range.context.end.to_point(&excerpt.buffer);
            let buffer_row: u32 = excerpt_start.row + overshoot;
            let line_start = Point { row: buffer_row, column: 0 };
            let line_end = Point { row: buffer_row, column: excerpt.buffer.line_len(buffer_row) };
            Some(
                (
                    &excerpt.buffer,
                    line_start.later(excerpt_start)..line_end.earlier(excerpt_end),
                ),
            )
        } else {
            None
        }
    }

    /// How many bytes a row holds.
    pub open spec fn len_of_line(&self, row: u32) -> int {
        let i = self.line_index(row);
        if i < self.excerpts@.len() {
            self.line_end_in_buffer(i, row as int) - self.line_start_in_buffer(i, row as int)
        } else {
            0
        }
    }

    pub fn line_len(&self, row: MultiBufferRow) -> (r: u32)
        requires
            self.wf(),
        ensures
            r == self.len_of_line(row.0),
    {
        match self.buffer_line_for_row(row) {
            Some((_, range)) => range.end.column - range.start.column,
            None => 0,
        }
    }

    pub fn max_point(&self) -> (r: Point)
        requires
            self.wf(),
        ensures
            r@ == summarize(self.bytes()).lines,
    {
        self.text_summary().lines
    }

    pub fn max_row(&self) -> (r: MultiBufferRow)
        requires
            self.wf(),
        ensures
            r.0 == summarize(self.bytes()).lines.row,
    {
        MultiBufferRow(self.text_summary().lines.row)
    }

    /// The number of the last line of a buffer that any excerpt shows, counted
    /// from one.
    pub fn widest_line_number(&self) -> (r: u32)
        requires
            self.wf(),
        ensures
            r == widest_row(self.excerpts@) + 1,
    {
        let ghost es = self.excerpts@;
        let mut widest: u32 = 0;
        let mut i: usize = 0;
        assert(es.take(0) =~= Seq::<Excerpt>::empty());
        while i < self.excerpts.len()
            invariant
                self.wf(),
                es == self.excerpts@,
                i <= es.len(),
                widest == widest_row(es.take(i as int)),
                widest <= MAX_TEXT_LEN,
            decreases es.len() - i,
        {
            proof {
                assert(es.take(i + 1).drop_last() =~= es.take(i as int));
                assert(es[i as int].wf());
                let t = es[i as int].buffer.bytes();
                lemma_summary_sound(t.take(es[i as int].end()));
            }
            if self.excerpts[i].max_buffer_row > widest {
                widest = self.excerpts[i].max_buffer_row;
            }
            i = i + 1;
        }
        assert(es.take(es.len() as int) =~= es);
        widest + 1
    }

    /// The buffers whose excerpts lie in the rows of a selection.
    pub fn buffer_ids_in_selected_rows(&self, start: Point, end: Point) -> (r: Vec<BufferId>)
        requires
            self.wf(),
        ensures
            ({
                let es = self.excerpts@;
                let from = seek_index(es, Point { row: start.row, column: 0 }, Bias::Right, 0);
                let to = starting_past_row(es, end.row as int, from);
                &&& r@.len() == to - from
                &&& forall|k: int|
                    0 <= k < r@.len() ==> #[trigger] r@[k] == es[from + k].buffer_id
            }),
    {
        let ghost es = self.excerpts@;
        let point = Point { row: start.row, column: 0 };
        let mut ids: Vec<BufferId> = Vec::new();
        let mut cursor = self.seek(&point, Bias::Right);
        let ghost from = cursor.index as int;
        while cursor.index < self.excerpts.len() && cursor.start.lines.row <= end.row
            invariant
                self.wf(),
                es == self.excerpts@,
                cursor.wf(es),
                from <= cursor.index,
                ids@.len() == cursor.index - from,
                forall|k: int|
                    0 <= k < ids@.len() ==> #[trigger] ids@[k] == es[from + k].buffer_id,
                starting_past_row(es, end.row as int, from) == starting_past_row(
                    es,
                    end.row as int,
                    cursor.index as int,
                ),
            decreases es.len() - cursor.index,
        {
            ids.push(self.excerpts[cursor.index].buffer_id);
            self.advance(&mut cursor);
        }
        ids
    }
}

/// The first excerpt from `from` on that starts behind a row.
pub open spec fn starting_past_row(es: Seq<Excerpt>, row: int, from: int) -> int
    decreases es.len() - from,
{
    if from >= es.len() {
        es.len() as int
    } else if first_row(es, from) > row {
        from
    } else {
        starting_past_row(es, row, from + 1)
    }
}

/// The last row of a buffer that any of the excerpts shows.
pub open spec fn widest_row(es: Seq<Excerpt>) -> int
    decreases es.len(),
{
    if es.len() == 0 {
        0
    } else {
        let rest = widest_row(es.drop_last());
        if es.last().max_buffer_row > rest {
            es.last().max_buffer_row as int
        } else {
            rest
        }
    }
}

} // verus!
