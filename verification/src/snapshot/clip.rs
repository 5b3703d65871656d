//! Moving positions to where a character starts.

use vstd::prelude::*;

use crate::buffer::{
    boundary_left, boundary_right, clipped_offset, clipped_offset_utf16, clipped_point_offset,
    clipped_point_utf16, lemma_boundary_left, lemma_boundary_right, lemma_visible_left,
    lemma_visible_right, lemma_row_bounds,
};
use crate::excerpt::{
    excerpt_start, excerpts_text, lemma_excerpt_position, lemma_excerpts_text_step,
    lemma_excerpts_text_split, Excerpt,
};
use crate::snapshot::convert::{
    lemma_boundary_within, lemma_find_offset_utf16_within, lemma_find_past_end_utf16,
    lemma_offset_utf16_in_buffer, lemma_summary_within, lemma_text_starts_char, pos_in_buffer,
    pos_utf16_in_buffer, to_point, to_point_utf16,
};
use crate::snapshot::{
    excerpts_wf, lemma_excerpt_starts_row, lemma_seek_offset, lemma_seek_offset_utf16,
    lemma_seek_point, lemma_seek_point_utf16, MultiBufferSnapshot,
};
use crate::text::{
    find, found_at, is_boundary, lemma_find, lemma_summary_sound, point_at, point_utf16_at,
    summarize, Bias, OffsetUtf16, Point, PointUtf16, Pos, Unclipped,
};

verus! {

/// Within an excerpt an offset moves as it does in the excerpt's buffer.
pub proof fn lemma_clip_within(es: Seq<Excerpt>, i: int, k: int, bias: Bias)
    requires
        excerpts_wf(es),
        0 <= i < es.len(),
        0 <= k <= es[i].bytes().len(),
    ensures
        clipped_offset(excerpts_text(es), excerpt_start(es, i) + k, bias) == excerpt_start(es, i)
            + clipped_offset(es[i].buffer.bytes(), es[i].start() + k, bias) - es[i].start(),
        es[i].start() <= clipped_offset(es[i].buffer.bytes(), es[i].start() + k, bias)
            <= es[i].end(),
{
    let e = es[i];
    let n = e.bytes().len() as int;
    lemma_excerpt_position(e, n);
    lemma_summary_within(es, i, k);
    lemma_summary_within(es, i, n);
    lemma_boundary_within(es, i, n);
    lemma_boundary_within(es, i, k);
    if bias is Left {
        lemma_boundary_left_within(es, i, k);
        lemma_boundary_left(e.buffer.bytes(), e.start() + k);
        lemma_boundary_left(excerpts_text(es), excerpt_start(es, i) + k);
    } else {
        lemma_boundary_right_within(es, i, k);
        lemma_boundary_right(e.buffer.bytes(), e.start() + k);
        lemma_boundary_right(excerpts_text(es), excerpt_start(es, i) + k);
    }
}

proof fn lemma_boundary_left_within(es: Seq<Excerpt>, i: int, k: int)
    requires
        excerpts_wf(es),
        0 <= i < es.len(),
        0 <= k <= es[i].bytes().len(),
    ensures
        boundary_left(excerpts_text(es), excerpt_start(es, i) + k) == excerpt_start(es, i)
            + boundary_left(es[i].buffer.bytes(), es[i].start() + k) - es[i].start(),
        boundary_left(es[i].buffer.bytes(), es[i].start() + k) >= es[i].start(),
    decreases k,
{
    lemma_boundary_within(es, i, k);
    if k > 0 && !is_boundary(es[i].buffer.bytes(), es[i].start() + k) {
        lemma_boundary_left_within(es, i, k - 1);
    }
}

proof fn lemma_boundary_right_within(es: Seq<Excerpt>, i: int, k: int)
    requires
        excerpts_wf(es),
        0 <= i < es.len(),
        0 <= k <= es[i].bytes().len(),
    ensures
        boundary_right(excerpts_text(es), excerpt_start(es, i) + k) == excerpt_start(es, i)
            + boundary_right(es[i].buffer.bytes(), es[i].start() + k) - es[i].start(),
        boundary_right(es[i].buffer.bytes(), es[i].start() + k) <= es[i].end(),
    decreases es[i].bytes().len() - k,
{
    let e = es[i];
    lemma_excerpt_position(e, k);
    lemma_boundary_within(es, i, k);
    lemma_summary_within(es, i, k);
    if k < e.bytes().len() {
        lemma_summary_within(es, i, k + 1);
        if !is_boundary(e.buffer.bytes(), e.start() + k) {
            lemma_boundary_right_within(es, i, k + 1);
        }
    }
}

impl MultiBufferSnapshot {
    /// A row and a column, moved as the buffer that shows them moves them.
    pub open spec fn clipped_point(&self, point: Point, bias: Bias) -> Pos {
        let es = self.excerpts@;
        let i = self.excerpt_at_point(point);
        if i < es.len() {
            let buffer = es[i].buffer;
            summarize(excerpts_text(es.take(i))).lines.plus(
                point_at(
                    buffer.bytes(),
                    clipped_point_offset(
                        buffer.bytes(),
                        buffer.joined_chars@,
                        to_point(pos_in_buffer(es, i, point@)),
                        bias,
                    ),
                ).saturating_minus(es[i].start_pos()),
            )
        } else {
            summarize(self.bytes()).lines
        }
    }

    /// A row and a UTF-16 column, moved as the buffer that shows them moves
    /// them.
    pub open spec fn clipped_point_utf16(&self, point: PointUtf16, bias: Bias) -> Pos {
        let es = self.excerpts@;
        let i = self.excerpt_at_point_utf16(point);
        if i < es.len() {
            let buffer = es[i].buffer.bytes();
            summarize(excerpts_text(es.take(i))).lines_utf16().plus(
                clipped_point_utf16(
                    buffer,
                    to_point_utf16(pos_utf16_in_buffer(es, i, point@)),
                    bias,
                ).saturating_minus(point_utf16_at(buffer, es[i].start())),
            )
        } else {
            summarize(self.bytes()).lines_utf16()
        }
    }

    pub fn clip_offset(&self, offset: usize, bias: Bias) -> (r: usize)
        requires
            self.wf(),
        ensures
            r == clipped_offset(self.bytes(), offset as int, bias),
            r <= self.bytes().len(),
    {
        let ghost es = self.excerpts@;
        let cursor = self.seek(&offset, Bias::Right);
        proof {
            lemma_seek_offset(es, offset, Bias::Right);
            assert(es.take(es.len() as int) =~= es);
        }
        if cursor.index < self.excerpts.len() {
            let excerpt = &self.excerpts[cursor.index];
            let overshoot: usize = offset - cursor.start.len;
            proof {
                let i = cursor.index as int;
                assert(overshoot <= es[i].bytes().len()) by {
                    lemma_excerpts_text_step(es, i);
                }
                lemma_clip_within(es, i, overshoot as int, bias);
                lemma_summary_within(es, i, es[i].bytes().len() as int);
                lemma_excerpt_position(es[i], 0);
            }
            let excerpt_start: usize = excerpt.buffer_start_offset();
            let buffer_offset: usize = excerpt.buffer.clip_offset(excerpt_start + overshoot, bias);
            cursor.start.len + (buffer_offset - excerpt_start)
        } else {
            cursor.start.len
        }
    }

    pub fn clip_point(&self, point: Point, bias: Bias) -> (r: Point)
        requires
            self.wf(),
            self.point_fits(point),
        ensures
            r@ == self.clipped_point(point, bias),
    {
        let ghost es = self.excerpts@;
        let cursor = self.seek(&point, Bias::Right);
        proof {
            lemma_seek_point(es, point, Bias::Right);
            assert(es.take(es.len() as int) =~= es);
        }
        if cursor.index < self.excerpts.len() {
            let excerpt = &self.excerpts[cursor.index];
            let excerpt_start = excerpt.buffer_start_point();
            let buffer_point = excerpt_start.plus(point.minus(cursor.start.lines));
            let clipped = excerpt.buffer.clip_point(buffer_point, bias);
            proof {
                let buffer = excerpt.buffer;
                let o = clipped_point_offset(
                    buffer.bytes(),
                    buffer.joined_chars@,
                    buffer_point,
                    bias,
                );
                lemma_clipped_point_offset(
                    buffer.bytes(),
                    buffer.joined_chars@,
                    buffer_point,
                    bias,
                );
                lemma_summary_sound(buffer.bytes().take(o));
                lemma_excerpts_text_split(es, cursor.index as int);
            }
            cursor.start.lines.plus(clipped.saturating_minus(excerpt_start))
        } else {
            cursor.start.lines
        }
    }

    pub fn clip_offset_utf16(&self, offset: OffsetUtf16, bias: Bias) -> (r: OffsetUtf16)
        requires
            self.wf(),
        ensures
            r@ == clipped_offset_utf16(self.bytes(), offset, bias),
    {
        let ghost es = self.excerpts@;
        let cursor = self.seek(&offset, Bias::Right);
        proof {
            lemma_seek_offset_utf16(es, offset);
            assert(es.take(es.len() as int) =~= es);
        }
        if cursor.index < self.excerpts.len() {
            let excerpt = &self.excerpts[cursor.index];
            let excerpt_start: usize = excerpt.buffer_start_offset();
            let start_utf16 = excerpt.buffer.offset_to_offset_utf16(excerpt_start);
            let overshoot: usize = offset.0 - cursor.start.len_utf16.0;
            proof {
                lemma_find_offset_utf16_within(*self, offset);
                lemma_offset_utf16_in_buffer(es, offset);
            }
            let target = OffsetUtf16(start_utf16.0 + overshoot);
            let clipped = excerpt.buffer.clip_offset_utf16(target, bias);
            proof {
                let i = cursor.index as int;
                let buffer = excerpt.buffer.bytes();
                let found = find(buffer, target, 0);
                lemma_find(buffer, target, 0);
                lemma_excerpt_position(es[i], 0);
                lemma_summary_within(es, i, found - es[i].start());
                lemma_summary_within(es, i, 0);
                lemma_summary_sound(buffer.take(found));
                lemma_summary_sound(self.bytes().take(find(self.bytes(), offset, 0)));
                if found > es[i].start() {
                    assert(!found_at(buffer, target, es[i].start()));
                }
            }
            OffsetUtf16(cursor.start.len_utf16.0 + clipped.0.saturating_sub(start_utf16.0))
        } else {
            proof {
                lemma_text_starts_char(es);
                lemma_find_past_end_utf16(self.bytes(), offset);
                assert(self.bytes().take(self.bytes().len() as int) =~= self.bytes());
            }
            cursor.start.len_utf16
        }
    }

    pub fn clip_point_utf16(&self, point: Unclipped<PointUtf16>, bias: Bias) -> (r: PointUtf16)
        requires
            self.wf(),
            self.point_utf16_fits(point.0),
        ensures
            r@ == self.clipped_point_utf16(point.0, bias),
    {
        let ghost es = self.excerpts@;
        let target = point.0;
        let cursor = self.seek(&target, Bias::Right);
        proof {
            lemma_seek_point_utf16(es, target, Bias::Right);
            assert(es.take(es.len() as int) =~= es);
        }
        if cursor.index < self.excerpts.len() {
            let excerpt = &self.excerpts[cursor.index];
            let excerpt_start = excerpt.buffer.offset_to_point_utf16(
                excerpt.buffer_start_offset(),
            );
            let buffer_point = excerpt_start.plus(target.minus(cursor.start.lines_utf16()));
            let clipped = excerpt.buffer.clip_point_utf16(Unclipped(buffer_point), bias);
            proof {
                let buffer = excerpt.buffer.bytes();
                lemma_find(buffer, buffer_point, 0);
                lemma_summary_sound(buffer.take(find(buffer, buffer_point, 0)));
                lemma_excerpt_starts_row(es, cursor.index as int);
                lemma_excerpts_text_split(es, cursor.index as int);
            }
            cursor.start.lines_utf16().plus(clipped.saturating_minus(excerpt_start))
        } else {
            cursor.start.lines_utf16()
        }
    }
}

pub proof fn lemma_clipped_point_offset(
    t: Seq<u8>,
    joined: Seq<usize>,
    target: Point,
    bias: Bias,
)
    ensures
        0 <= clipped_point_offset(t, joined, target, bias) <= t.len(),
        is_boundary(t, clipped_point_offset(t, joined, target, bias)),
{
    lemma_row_bounds(t, target.row);
    let start = crate::buffer::row_start(t, target.row);
    let end = crate::buffer::row_end(t, target.row);
    let o = if start + target.column < end {
        start + target.column
    } else {
        end
    };
    lemma_visible_left(t, joined, o);
    lemma_visible_right(t, joined, o);
}

} // verus!
