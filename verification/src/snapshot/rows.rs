//! Which rows of the buffers the rows of a multibuffer show.

use std::ops::Range;
use vstd::prelude::*;

use crate::excerpt::{Excerpt, MultiBufferRow};
use crate::snapshot::lines::{first_row, lemma_excerpt_rows};
use crate::snapshot::{lemma_seek_point, seek_index, MultiBufferSnapshot};
use crate::text::{lemma_summary_sound, summarize, Bias, Point, MAX_TEXT_LEN};

verus! {

/// The rows of the buffers that the rows of a multibuffer show, one after the
/// other.
#[derive(Debug)]
pub struct MultiBufferRows<'a> {
    pub snapshot: &'a MultiBufferSnapshot,
    /// The rows of the current excerpt that are still to come.
    pub buffer_row_range: Range<u32>,
    /// The current excerpt.
    pub index: usize,
}

/// The rows of a buffer that an excerpt shows.
pub open spec fn rows_of(e: Excerpt) -> Range<u32> {
    Range {
        start: e.start_pos().row as u32,
        end: (e.start_pos().row + summarize(e.bytes()).lines.row + 1) as u32,
    }
}

impl<'a> MultiBufferRows<'a> {
    pub open spec fn wf(&self) -> bool {
        &&& self.snapshot.wf()
        &&& self.index <= self.snapshot.excerpts@.len()
        &&& self.buffer_row_range.end <= MAX_TEXT_LEN + 1
    }

    /// Whether the rows go on from a row: with the rest of the excerpt that shows
    /// it, and where no excerpt does, with what lies behind the last excerpt; a
    /// multibuffer without excerpts has one row.
    pub open spec fn goes_on_from(&self, row: u32) -> bool {
        let es = self.snapshot.excerpts@;
        let i = self.snapshot.rows_index(row);
        &&& self.index == i
        &&& if i < es.len() {
            let rows = rows_of(es[i]);
            self.buffer_row_range == (Range {
                start: (rows.start + row - first_row(es, i)) as u32,
                end: rows.end,
            })
        } else if row == 0 {
            self.buffer_row_range == (Range { start: 0u32, end: 1u32 })
        } else {
            self.buffer_row_range == (Range { start: 0u32, end: 0u32 })
        }
    }

    /// Goes on from a row.
    pub fn seek(&mut self, row: MultiBufferRow)
        requires
            old(self).snapshot.wf(),
            old(self).snapshot.row_fits(row.0),
        ensures
            final(self).wf(),
            final(self).snapshot == old(self).snapshot,
            final(self).goes_on_from(row.0),
    {
        let snapshot: &'a MultiBufferSnapshot = self.snapshot;
        let ghost es = snapshot.excerpts@;
        let point = Point { row: row.0, column: 0 };
        let mut cursor = snapshot.seek(&point, Bias::Right);
        proof {
            lemma_seek_point(es, point, Bias::Right);
            assert(es.take(es.len() as int) =~= es);
            if es.len() > 0 {
                lemma_excerpt_rows(es, es.len() - 1);
            }
        }
        if cursor.index == snapshot.excerpts.len() && cursor.index > 0 {
            cursor = snapshot.cursor_at(cursor.index - 1);
        }
        self.index = cursor.index;
        if cursor.index < snapshot.excerpts.len() {
            let excerpt = &snapshot.excerpts[cursor.index];
            proof {
                let i = cursor.index as int;
                lemma_excerpt_rows(es, i);
                assert(es[i].wf());
                lemma_row_bounds_of(es[i]);
            }
            let overshoot: u32 = row.0 - cursor.start.lines.row;
            let excerpt_start: u32 = excerpt.buffer_start_point().row;
            self.buffer_row_range =
            excerpt_start + overshoot..excerpt_start + excerpt.text_summary.lines.row + 1;
        } else if row.0 == 0 {
            self.buffer_row_range = 0..1;
        } else {
            self.buffer_row_range = 0..0;
        }
    }

    /// The next row of a buffer.
    pub fn next(&mut self) -> (r: Option<Option<u32>>)
        requires
            old(self).wf(),
        ensures
            final(self).wf(),
            final(self).snapshot == old(self).snapshot,
            ({
                let es = old(self).snapshot.excerpts@;
                let rows = old(self).buffer_row_range;
                if rows.start < rows.end {
                    &&& r == Some(Some(rows.start))
                    &&& final(self).index == old(self).index
                    &&& final(self).buffer_row_range == (Range {
                        start: (rows.start + 1) as u32,
                        end: rows.end,
                    })
                } else if old(self).index + 1 < es.len() {
                    let rows = rows_of(es[old(self).index + 1]);
                    &&& r == Some(Some(rows.start))
                    &&& final(self).index == old(self).index + 1
                    &&& final(self).buffer_row_range == (Range {
                        start: (rows.start + 1) as u32,
                        end: rows.end,
                    })
                } else {
                    &&& r is None
                    &&& final(self).index == es.len()
                    &&& final(self).buffer_row_range == rows
                }
            }),
    {
        let snapshot: &'a MultiBufferSnapshot = self.snapshot;
        let mut start: u32 = self.buffer_row_range.start;
        let mut end: u32 = self.buffer_row_range.end;
        if start >= end {
            if self.index >= snapshot.excerpts.len() || self.index + 1 >= snapshot.excerpts.len() {
                self.index = snapshot.excerpts.len();
                return None;
            }
            self.index = self.index + 1;
            let excerpt = &snapshot.excerpts[self.index];
            proof {
                let es = snapshot.excerpts@;
                let i = self.index as int;
                lemma_excerpt_rows(es, i);
                assert(es[i].wf());
                lemma_row_bounds_of(es[i]);
            }
            start = excerpt.buffer_start_point().row;
            end = start + excerpt.text_summary.lines.row + 1;
        }
        self.buffer_row_range = start + 1..end;
        Some(Some(start))
    }
}

/// The rows that an excerpt shows are rows of its buffer.
proof fn lemma_row_bounds_of(e: Excerpt)
    requires
        e.wf(),
        e.max_buffer_row == e.start_pos().row + summarize(e.bytes()).lines.row,
    ensures
        0 <= e.start_pos().row,
        0 <= summarize(e.bytes()).lines.row,
        e.max_buffer_row <= MAX_TEXT_LEN,
{
    let t = e.buffer.bytes();
    lemma_summary_sound(t.take(e.start()));
    lemma_summary_sound(t.take(e.end()));
    lemma_summary_sound(e.bytes());
}

impl MultiBufferSnapshot {
    /// The excerpt that shows a row, or the last one.
    pub open spec fn rows_index(&self, row: u32) -> int {
        let es = self.excerpts@;
        let found = seek_index(es, Point { row, column: 0 }, Bias::Right, 0);
        if found == es.len() && es.len() > 0 {
            found - 1
        } else {
            found
        }
    }

    /// Whether a row can be counted in the buffer of the excerpt that shows it.
    pub open spec fn row_fits(&self, row: u32) -> bool {
        let i = self.rows_index(row);
        i < self.excerpts@.len() ==> self.excerpts@[i].start_pos().row + row - first_row(
            self.excerpts@,
            i,
        ) <= u32::MAX
    }

    /// The rows of the buffers from a row on.
    pub fn buffer_rows(&self, start_row: MultiBufferRow) -> (r: MultiBufferRows<'_>)
        requires
            self.wf(),
            self.row_fits(start_row.0),
        ensures
            r.wf(),
            *r.snapshot == *self,
            r.goes_on_from(start_row.0),
    {
        let mut rows = MultiBufferRows { snapshot: self, buffer_row_range: 0..0, index: 0 };
        rows.seek(start_row);
        rows
    }
}

} // verus!
