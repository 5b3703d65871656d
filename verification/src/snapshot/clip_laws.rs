//! What holds of positions that are moved into the text.

use vstd::prelude::*;

use crate::buffer::{
    clipped_offset_utf16, clipped_point_offset, is_visible_boundary, lemma_visible_left,
    lemma_visible_right, row_end, row_start, visible_left, visible_right, BufferSnapshot,
};
use crate::excerpt::{excerpt_start, excerpts_text, lemma_excerpts_text_step};
use crate::snapshot::convert::{
    lemma_boundary_within, lemma_summary_before, lemma_summary_within, lemma_text_starts_char,
    pos_in_buffer, pos_utf16_in_buffer, to_point, to_point_utf16,
};
use crate::snapshot::round_trips::lemma_offset_utf16_has_offset;
use crate::snapshot::lines::{lemma_columns, lemma_past_line_end};
use crate::snapshot::{
    lemma_excerpt_starts_row, lemma_seek_point, lemma_seek_point_utf16, seek_index,
    MultiBufferSnapshot,
};
use crate::text::{
    is_boundary, lemma_find, lemma_find_point, lemma_find_point_utf16, lemma_positions_grow,
    lemma_summary_sound, offset_utf16_at, point_at, point_utf16_at, summarize, Bias, OffsetUtf16,
    Point, Pos,
};

verus! {

proof fn lemma_none_between_left(t: Seq<u8>, joined: Seq<usize>, o: int, k: int)
    requires
        visible_left(t, joined, o) < k <= o,
    ensures
        !is_visible_boundary(t, joined, k),
    decreases o,
{
    if o > 0 && !is_visible_boundary(t, joined, o) && k < o {
        lemma_none_between_left(t, joined, o - 1, k);
    }
}

proof fn lemma_none_between_right(t: Seq<u8>, joined: Seq<usize>, o: int, k: int)
    requires
        o <= k < visible_right(t, joined, o),
    ensures
        !is_visible_boundary(t, joined, k),
    decreases t.len() - o,
{
    if o < t.len() && !is_visible_boundary(t, joined, o) && o < k {
        lemma_none_between_right(t, joined, o + 1, k);
    }
}

/// A row and a column are moved within the row first: to its end where it is shorter. From
/// there they move to the nearest start of a visible character, to the left or to the right
/// as asked; and stay where they are at one.
pub proof fn lemma_clipped_in_row(buffer: BufferSnapshot, target: Point)
    requires
        buffer.wf(),
        target.row <= point_at(buffer.bytes(), buffer.bytes().len() as int).row,
    ensures
        ({
            let t = buffer.bytes();
            let joined = buffer.joined_chars@;
            let start = row_start(t, target.row);
            let end = row_end(t, target.row);
            let left = clipped_point_offset(t, joined, target, Bias::Left);
            let right = clipped_point_offset(t, joined, target, Bias::Right);
            let o = if target.column <= end - start {
                start + target.column
            } else {
                end
            };
            &&& 0 <= left <= o <= right <= t.len()
            &&& is_boundary(t, left)
            &&& is_boundary(t, right)
            &&& is_visible_boundary(t, joined, o) ==> left == o && right == o
            &&& forall|k: int| left < k < right ==> !#[trigger] is_visible_boundary(t, joined, k)
                || k == o
        }),
{
    let t = buffer.bytes();
    let joined = buffer.joined_chars@;
    buffer.lemma_row(target.row);
    let start = row_start(t, target.row);
    let end = row_end(t, target.row);
    let o = if target.column <= end - start {
        start + target.column
    } else {
        end
    };
    lemma_visible_left(t, joined, o);
    lemma_visible_right(t, joined, o);
    assert forall|k: int|
        visible_left(t, joined, o) < k < visible_right(t, joined, o) implies !(
    #[trigger] is_visible_boundary(t, joined, k)) || k == o by {
        if k < o {
            lemma_none_between_left(t, joined, o, k);
        } else {
            lemma_none_between_right(t, joined, o, k);
        }
    }
}

/// The row and the column of an offset are those of no other: clipping them in the buffer
/// leaves them at the offset.
proof fn lemma_clipped_stays(buffer: BufferSnapshot, o: int, bias: Bias)
    requires
        buffer.wf(),
        0 <= o <= buffer.bytes().len(),
        is_visible_boundary(buffer.bytes(), buffer.joined_chars@, o),
    ensures
        clipped_point_offset(
            buffer.bytes(),
            buffer.joined_chars@,
            to_point(point_at(buffer.bytes(), o)),
            bias,
        ) == o,
{
    let t = buffer.bytes();
    let pos = point_at(t, o);
    lemma_summary_sound(t.take(o));
    if o < t.len() {
        lemma_positions_grow(t, o, t.len() as int);
    }
    let point = to_point(pos);
    buffer.lemma_row(point.row);
    let start = row_start(t, point.row);
    let end = row_end(t, point.row);
    if o < start {
        lemma_positions_grow(t, o, start);
    }
    lemma_columns(t, start, o);
    lemma_past_line_end(t, end, o);
    lemma_clipped_in_row(buffer, point);
}

/// Within a row the column grows with the offset.
proof fn lemma_row_offset(t: Seq<u8>, start: int, end: int, o: int)
    requires
        0 <= start <= o <= end <= t.len(),
        point_at(t, start).row == point_at(t, end).row,
        point_at(t, start).column == 0,
    ensures
        point_at(t, o).row == point_at(t, start).row,
        point_at(t, o).column == o - start,
{
    if start < o {
        lemma_positions_grow(t, start, o);
    }
    if o < end {
        lemma_positions_grow(t, o, end);
    }
    lemma_columns(t, start, o);
}

/// Positions of a buffer keep their order when they are counted from where an excerpt stands.
proof fn lemma_moved(t: Seq<u8>, start: int, a: int, b: int, lines: Pos)
    requires
        0 <= start <= t.len(),
        0 <= a <= b <= t.len(),
        lines.column == 0,
    ensures
        ({
            let from = lines.plus(point_at(t, a).saturating_minus(point_at(t, start)));
            let to = lines.plus(point_at(t, b).saturating_minus(point_at(t, start)));
            &&& from.not_after(to)
            &&& start < b && a < b ==> from.before(to)
        }),
{
    lemma_summary_sound(t.take(start));
    lemma_summary_sound(t.take(a));
    lemma_summary_sound(t.take(b));
    if a < b {
        lemma_positions_grow(t, a, b);
    }
    if start < a {
        lemma_positions_grow(t, start, a);
    }
    if a < start {
        lemma_positions_grow(t, a, start);
    }
    if start < b {
        lemma_positions_grow(t, start, b);
    }
    if b < start {
        lemma_positions_grow(t, b, start);
    }
}

proof fn lemma_none_visible(t: Seq<u8>, joined: Seq<usize>, o: int)
    requires
        0 <= o < t.len(),
        !is_visible_boundary(t, joined, o),
    ensures
        visible_right(t, joined, o) > o,
{
    lemma_visible_right(t, joined, o + 1);
}

proof fn lemma_none_visible_left(t: Seq<u8>, joined: Seq<usize>, o: int)
    requires
        0 < o <= t.len(),
        !is_visible_boundary(t, joined, o),
    ensures
        visible_left(t, joined, o) < o,
{
    lemma_visible_left(t, joined, o - 1);
}

impl MultiBufferSnapshot {
    /// A row and a column at which a visible character starts stay where they are when they
    /// are clipped, whatever the bias.
    #[verifier::rlimit(50)]
    pub proof fn lemma_clipped_point_stays(&self, o: int, bias: Bias)
        requires
            self.wf(),
            0 <= o <= self.bytes().len(),
            is_boundary(self.bytes(), o),
            ({
                let es = self.excerpts@;
                let i = self.excerpt_at_point(to_point(point_at(self.bytes(), o)));
                i < es.len() ==> is_visible_boundary(
                    es[i].buffer.bytes(),
                    es[i].buffer.joined_chars@,
                    es[i].start() + o - excerpt_start(es, i),
                )
            }),
        ensures
            self.clipped_point(to_point(point_at(self.bytes(), o)), bias) == point_at(
                self.bytes(),
                o,
            ),
    {
        let es = self.excerpts@;
        let t = self.bytes();
        let pos = point_at(t, o);
        let point = to_point(pos);
        lemma_summary_sound(t.take(o));
        let i = seek_index(es, point, Bias::Right, 0);
        lemma_seek_point(es, point, Bias::Right);
        lemma_summary_before(es, i);
        let start = excerpt_start(es, i);
        if o < start {
            lemma_positions_grow(t, o, start);
        }
        if i < es.len() {
            lemma_summary_before(es, i + 1);
            let next = excerpt_start(es, i + 1);
            if next < o {
                lemma_positions_grow(t, next, o);
            }
            lemma_excerpts_text_step(es, i);
            let e = es[i];
            let k = o - start;
            assert(e.wf());
            assert(k <= e.bytes().len());
            lemma_summary_within(es, i, k);
            lemma_excerpt_starts_row(es, i);
            let there = e.start() + k;
            assert(pos_in_buffer(es, i, point@) == point_at(e.buffer.bytes(), there));
            self.lemma_buffer_clip_stays(i, there, bias);
        } else {
            assert(es.take(es.len() as int) =~= es);
            assert(t.take(t.len() as int) =~= t);
            if o < t.len() {
                lemma_positions_grow(t, o, t.len() as int);
            }
        }
    }

    proof fn lemma_buffer_clip_stays(&self, i: int, o: int, bias: Bias)
        requires
            self.wf(),
            0 <= i < self.excerpts@.len(),
            0 <= o <= self.excerpts@[i].buffer.bytes().len(),
            is_visible_boundary(
                self.excerpts@[i].buffer.bytes(),
                self.excerpts@[i].buffer.joined_chars@,
                o,
            ),
        ensures
            clipped_point_offset(
                self.excerpts@[i].buffer.bytes(),
                self.excerpts@[i].buffer.joined_chars@,
                to_point(point_at(self.excerpts@[i].buffer.bytes(), o)),
                bias,
            ) == o,
    {
        let e = self.excerpts@[i];
        assert(e.wf());
        let buffer: BufferSnapshot = *e.buffer;
        lemma_clipped_stays(buffer, o, bias);
    }

    /// A row and a column that an excerpt shows, in a row of its buffer that reaches so far,
    /// are moved to the left or not at all by one bias, and to the right or not at all by the
    /// other; and by both where no visible character starts there, unless the buffer ends
    /// there or the excerpt starts there.
    #[verifier::rlimit(50)]
    pub proof fn lemma_clipped_point_side(&self, point: Point)
        requires
            self.wf(),
            self.excerpt_at_point(point) < self.excerpts@.len(),
            ({
                let es = self.excerpts@;
                let i = self.excerpt_at_point(point);
                let t = es[i].buffer.bytes();
                let there = pos_in_buffer(es, i, point@);
                &&& there.row <= point_at(t, t.len() as int).row
                &&& there.column <= row_end(t, there.row as u32) - row_start(t, there.row as u32)
            }),
        ensures
            ({
                let es = self.excerpts@;
                let i = self.excerpt_at_point(point);
                let t = es[i].buffer.bytes();
                let there = pos_in_buffer(es, i, point@);
                let o = row_start(t, there.row as u32) + there.column;
                let visible = is_visible_boundary(t, es[i].buffer.joined_chars@, o);
                &&& point_at(t, o) == there
                &&& self.clipped_point(point, Bias::Left).not_after(point@)
                &&& point@.not_after(self.clipped_point(point, Bias::Right))
                &&& visible ==> self.clipped_point(point, Bias::Left) == point@
                    && self.clipped_point(point, Bias::Right) == point@
                &&& !visible && o < t.len() ==> point@.before(
                    self.clipped_point(point, Bias::Right),
                )
                &&& !visible && es[i].start() < o ==> self.clipped_point(point, Bias::Left).before(
                    point@,
                )
            }),
    {
        let es = self.excerpts@;
        let i = self.excerpt_at_point(point);
        lemma_seek_point(es, point, Bias::Right);
        lemma_excerpt_starts_row(es, i);
        let e = es[i];
        assert(e.wf());
        let buffer: BufferSnapshot = *e.buffer;
        let t = buffer.bytes();
        let joined = buffer.joined_chars@;
        let lines = summarize(excerpts_text(es.take(i))).lines;
        let there = pos_in_buffer(es, i, point@);
        lemma_summary_sound(t.take(e.start()));
        lemma_summary_sound(t.take(t.len() as int));
        lemma_summary_sound(excerpts_text(es.take(i)));
        let target = to_point(there);
        buffer.lemma_row(target.row);
        let start = row_start(t, target.row);
        let end = row_end(t, target.row);
        let o = start + there.column;
        lemma_row_offset(t, start, end, o);
        assert(end - start <= t.len());
        lemma_clipped_in_row(buffer, target);
        let left = clipped_point_offset(t, joined, target, Bias::Left);
        let right = clipped_point_offset(t, joined, target, Bias::Right);
        assert(e.start_pos().not_after(there));
        if o < e.start() {
            lemma_positions_grow(t, o, e.start());
        }
        assert(e.start() <= o);
        assert(point@ == lines.plus(there.saturating_minus(e.start_pos())));
        lemma_moved(t, e.start(), left, o, lines);
        lemma_moved(t, e.start(), o, right, lines);
        if !is_visible_boundary(t, joined, o) {
            if o < t.len() && right == o {
                lemma_none_visible(t, joined, o);
            }
            if o > 0 && left == o {
                lemma_none_visible_left(t, joined, o);
            }
        }
    }

    /// What stands before a point of the text measures what the text up to it measures.
    #[verifier::rlimit(50)]
    pub proof fn lemma_summary_before_point(&self, o: int)
        requires
            self.wf(),
            0 <= o <= self.bytes().len(),
            is_boundary(self.bytes(), o),
        ensures
            self.summary_before_point(to_point(point_at(self.bytes(), o))) == summarize(
                self.bytes().take(o),
            ),
    {
        let es = self.excerpts@;
        let t = self.bytes();
        let pos = point_at(t, o);
        let point = to_point(pos);
        lemma_summary_sound(t.take(o));
        let i = seek_index(es, point, Bias::Right, 0);
        lemma_seek_point(es, point, Bias::Right);
        lemma_summary_before(es, i);
        let start = excerpt_start(es, i);
        if o < start {
            lemma_positions_grow(t, o, start);
        }
        if i < es.len() {
            lemma_summary_before(es, i + 1);
            let next = excerpt_start(es, i + 1);
            if next < o {
                lemma_positions_grow(t, next, o);
            }
            lemma_excerpts_text_step(es, i);
            let e = es[i];
            let k = o - start;
            assert(e.wf());
            assert(k <= e.bytes().len());
            lemma_summary_within(es, i, k);
            lemma_excerpt_starts_row(es, i);
            lemma_boundary_within(es, i, k);
            let there = e.start() + k;
            assert(pos_in_buffer(es, i, point@) == point_at(e.buffer.bytes(), there));
            lemma_summary_sound(e.buffer.bytes().take(there));
            lemma_find_point(e.buffer.bytes(), to_point(pos_in_buffer(es, i, point@)), there);
            assert(e.buffer.bytes().subrange(e.start(), there) =~= e.bytes().take(k));
        } else {
            assert(es.take(es.len() as int) =~= es);
            assert(t.take(t.len() as int) =~= t);
            if o < t.len() {
                lemma_positions_grow(t, o, t.len() as int);
            }
        }
    }

    /// A row and a UTF-16 column at which a character starts stay where they are when they
    /// are clipped, whatever the bias.
    #[verifier::rlimit(50)]
    pub proof fn lemma_clipped_point_utf16_stays(&self, o: int, bias: Bias)
        requires
            self.wf(),
            0 <= o <= self.bytes().len(),
            is_boundary(self.bytes(), o),
        ensures
            self.clipped_point_utf16(to_point_utf16(point_utf16_at(self.bytes(), o)), bias)
                == point_utf16_at(self.bytes(), o),
    {
        let es = self.excerpts@;
        let t = self.bytes();
        let pos = point_utf16_at(t, o);
        let point = to_point_utf16(pos);
        lemma_summary_sound(t.take(o));
        lemma_text_starts_char(es);
        let i = seek_index(es, point, Bias::Right, 0);
        lemma_seek_point_utf16(es, point, Bias::Right);
        lemma_summary_before(es, i);
        let start = excerpt_start(es, i);
        if o < start {
            lemma_positions_grow(t, o, start);
        }
        if i < es.len() {
            lemma_summary_before(es, i + 1);
            let next = excerpt_start(es, i + 1);
            if next < o {
                lemma_positions_grow(t, next, o);
            }
            lemma_excerpts_text_step(es, i);
            let e = es[i];
            let k = o - start;
            assert(e.wf());
            assert(k <= e.bytes().len());
            lemma_summary_within(es, i, k);
            lemma_excerpt_starts_row(es, i);
            lemma_boundary_within(es, i, k);
            let there = e.start() + k;
            assert(pos_utf16_in_buffer(es, i, point@) == point_utf16_at(e.buffer.bytes(), there));
            lemma_summary_sound(e.buffer.bytes().take(there));
            e.buffer.lemma_starts_char();
            lemma_find_point_utf16(
                e.buffer.bytes(),
                to_point_utf16(pos_utf16_in_buffer(es, i, point@)),
                there,
            );
        } else {
            assert(es.take(es.len() as int) =~= es);
            assert(t.take(t.len() as int) =~= t);
            if o < t.len() {
                lemma_positions_grow(t, o, t.len() as int);
            }
        }
    }

    /// A UTF-16 offset at which a character starts stays where it is when it is clipped. One
    /// in the middle of a character moves to its end, or leaning to the left to its start,
    /// two code units before.
    pub proof fn lemma_clipped_offset_utf16(&self, o: int, target: OffsetUtf16)
        requires
            self.wf(),
            0 <= o <= self.bytes().len(),
            is_boundary(self.bytes(), o),
        ensures
            ({
                let t = self.bytes();
                let here = OffsetUtf16(offset_utf16_at(t, o) as usize);
                let left = clipped_offset_utf16(t, target, Bias::Left);
                let right = clipped_offset_utf16(t, target, Bias::Right);
                &&& clipped_offset_utf16(t, here, Bias::Left) == offset_utf16_at(t, o)
                &&& clipped_offset_utf16(t, here, Bias::Right) == offset_utf16_at(t, o)
                &&& right > target@ ==> left == right - 2
                &&& right <= target@ ==> left == right
                &&& target@ <= offset_utf16_at(t, t.len() as int) ==> right >= target@
            }),
    {
        let t = self.bytes();
        lemma_summary_sound(t.take(o));
        lemma_offset_utf16_has_offset(*self, o);
        lemma_find(t, target, 0);
    }
}

} // verus!
