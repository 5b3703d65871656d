//! An excerpt, seen from the multibuffer.

use std::ops::Range;
use vstd::prelude::*;

use crate::anchor::Anchor;
use crate::buffer::{BufferSnapshot, TextAnchor};
use crate::excerpt::{
    excerpt_start, excerpts_text, lemma_excerpts_text_split, lemma_excerpts_text_step, Excerpt,
    ExcerptId,
};
use crate::multi_buffer::edit::edited_index;
use crate::position::ToOffset;
use crate::snapshot::convert::lemma_summary_within;
use crate::snapshot::{
    lemma_excerpt_starts_row, lemma_seek_offset, seek_index, Cursor, MultiBufferSnapshot,
};
use crate::text::{
    lemma_positions_grow, lemma_summary_sound, point_at, summarize, Bias, Point, Pos, MAX_TEXT_LEN,
};

verus! {

/// An excerpt and where it stands in the multibuffer. Maps positions of the
/// multibuffer to positions of the buffer and back.
#[derive(Clone, Copy, Debug)]
pub struct MultiBufferExcerpt<'a> {
    pub excerpt: &'a Excerpt,
    pub excerpt_offset: usize,
    pub excerpt_position: Point,
}

/// Clamps `n` between zero and `max`.
pub open spec fn clamped(n: int, max: int) -> int {
    if n < 0 {
        0
    } else if n > max {
        max
    } else {
        n
    }
}

impl<'a> MultiBufferExcerpt<'a> {
    pub open spec fn wf(&self) -> bool {
        &&& self.excerpt.wf()
        &&& self.excerpt_offset + self.excerpt.bytes().len() <= MAX_TEXT_LEN
    }

    /// Whether this is the `i`-th excerpt.
    pub open spec fn is_at(&self, es: Seq<Excerpt>, i: int) -> bool {
        &&& 0 <= i < es.len()
        &&& *self.excerpt == es[i]
        &&& self.excerpt_offset == excerpt_start(es, i)
        &&& self.excerpt_position@ == summarize(excerpts_text(es.take(i))).lines
    }

    /// Where an offset of the multibuffer lies in the buffer.
    pub open spec fn to_buffer(&self, offset: int) -> int {
        self.excerpt.start() + clamped(
            offset - self.excerpt_offset,
            self.excerpt.bytes().len() as int,
        )
    }

    /// Where an offset of the buffer lies in the multibuffer.
    pub open spec fn from_buffer(&self, offset: int) -> int {
        self.excerpt_offset + clamped(
            offset - self.excerpt.start(),
            self.excerpt.bytes().len() as int,
        )
    }

    /// Where a point of the multibuffer lies in the buffer.
    pub open spec fn point_to_buffer(&self, point: Pos) -> Pos {
        self.excerpt.start_pos().plus(
            point.saturating_minus(self.excerpt_position@).earlier(
                summarize(self.excerpt.bytes()).lines,
            ),
        )
    }

    /// Where a point of the buffer lies in the multibuffer.
    pub open spec fn point_from_buffer(&self, point: Pos) -> Pos {
        let lines = summarize(self.excerpt.bytes()).lines;
        self.excerpt_position@.plus(
            point.saturating_minus(self.excerpt.start_pos()).earlier(
                Pos { row: lines.row + 1, column: 0 },
            ),
        )
    }

    /// What lies in the excerpt comes back from the buffer where it was.
    pub proof fn lemma_offset_round_trip(&self, offset: int)
        requires
            self.wf(),
            self.excerpt_offset <= offset <= self.excerpt_offset + self.excerpt.bytes().len(),
        ensures
            self.from_buffer(self.to_buffer(offset)) == offset,
            self.excerpt.start() <= self.to_buffer(offset) <= self.excerpt.end(),
    {
    }

    /// What the excerpt shows of the buffer comes back from the multibuffer
    /// where it was.
    pub proof fn lemma_buffer_offset_round_trip(&self, offset: int)
        requires
            self.wf(),
            self.excerpt.start() <= offset <= self.excerpt.end(),
        ensures
            self.to_buffer(self.from_buffer(offset)) == offset,
            self.excerpt_offset <= self.from_buffer(offset) <= self.excerpt_offset
                + self.excerpt.bytes().len(),
    {
    }

    /// The row and the column of what lies in the excerpt are mapped to those that it
    /// has in the buffer, and come back from there.
    pub proof fn lemma_point_round_trip(&self, snapshot: MultiBufferSnapshot, i: int, k: int)
        requires
            snapshot.wf(),
            self.is_at(snapshot.excerpts@, i),
            0 <= k <= self.excerpt.bytes().len(),
        ensures
            ({
                let point = point_at(snapshot.bytes(), self.excerpt_offset + k);
                let buffer_point = point_at(
                    self.excerpt.buffer.bytes(),
                    self.excerpt.start() + k,
                );
                &&& self.point_to_buffer(point) == buffer_point
                &&& self.point_from_buffer(buffer_point) == point
            }),
    {
        let es = snapshot.excerpts@;
        let bytes = self.excerpt.bytes();
        assert(es[i].wf());
        lemma_summary_within(es, i, k);
        lemma_excerpt_starts_row(es, i);
        lemma_summary_sound(bytes.take(k));
        lemma_summary_sound(self.excerpt.buffer.bytes().take(self.excerpt.start()));
        assert(bytes.take(bytes.len() as int) =~= bytes);
        if k < bytes.len() {
            lemma_positions_grow(bytes, k, bytes.len() as int);
        }
    }

    pub fn new(excerpt: &'a Excerpt, start: (usize, Point)) -> (r: Self)
        ensures
            r == (MultiBufferExcerpt {
                excerpt,
                excerpt_offset: start.0,
                excerpt_position: start.1,
            }),
    {
        MultiBufferExcerpt { excerpt, excerpt_offset: start.0, excerpt_position: start.1 }
    }

    pub fn id(&self) -> (r: ExcerptId)
        ensures
            r == self.excerpt.id,
    {
        self.excerpt.id
    }

    pub fn start_anchor(&self) -> (r: Anchor)
        ensures
            r == (Anchor {
                buffer_id: Some(self.excerpt.buffer_id),
                excerpt_id: self.excerpt.id,
                text_anchor: self.excerpt.range.context.start,
            }),
    {
        Anchor {
            buffer_id: Some(self.excerpt.buffer_id),
            excerpt_id: self.excerpt.id,
            text_anchor: self.excerpt.range.context.start,
        }
    }

    pub fn end_anchor(&self) -> (r: Anchor)
        ensures
            r == (Anchor {
                buffer_id: Some(self.excerpt.buffer_id),
                excerpt_id: self.excerpt.id,
                text_anchor: self.excerpt.range.context.end,
            }),
    {
        Anchor {
            buffer_id: Some(self.excerpt.buffer_id),
            excerpt_id: self.excerpt.id,
            text_anchor: self.excerpt.range.context.end,
        }
    }

    pub fn buffer(&self) -> (r: &'a BufferSnapshot)
        ensures
            *r == *self.excerpt.buffer,
    {
        &self.excerpt.buffer
    }

    pub fn buffer_range(&self) -> (r: Range<TextAnchor>)
        ensures
            r == self.excerpt.range.context,
    {
        self.excerpt.range.context.start..self.excerpt.range.context.end
    }

    pub fn start_offset(&self) -> (r: usize)
        ensures
            r == self.excerpt_offset,
    {
        self.excerpt_offset
    }

    pub fn start_point(&self) -> (r: Point)
        ensures
            r == self.excerpt_position,
    {
        self.excerpt_position
    }

    /// Maps an offset of the multibuffer to one of the buffer.
    pub fn map_offset_to_buffer(&self, offset: usize) -> (r: usize)
        requires
            self.wf(),
        ensures
            r == self.to_buffer(offset as int),
            self.excerpt.start() <= r <= self.excerpt.end(),
    {
        proof {
            lemma_summary_sound(self.excerpt.bytes());
        }
        let len: usize = self.excerpt.text_summary.len;
        let within: usize = offset.saturating_sub(self.excerpt_offset);
        self.excerpt.buffer_start_offset() + if within > len {
            len
        } else {
            within
        }
    }

    /// Maps a point of the multibuffer to one of the buffer.
    pub fn map_point_to_buffer(&self, point: Point) -> (r: Point)
        requires
            self.wf(),
            self.point_to_buffer(point@).fits(),
        ensures
            r@ == self.point_to_buffer(point@),
    {
        self.excerpt.buffer_start_point().plus(
            point.saturating_minus(self.excerpt_position).earlier(self.excerpt.text_summary.lines),
        )
    }

    /// Maps a range of the multibuffer to one of the buffer.
    pub fn map_range_to_buffer(&self, range: Range<usize>) -> (r: Range<usize>)
        requires
            self.wf(),
        ensures
            r.start == self.to_buffer(range.start as int),
            r.end == self.to_buffer(range.end as int),
    {
        self.map_offset_to_buffer(range.start)..self.map_offset_to_buffer(range.end)
    }

    /// Maps an offset of the buffer to one of the multibuffer.
    pub fn map_offset_from_buffer(&self, buffer_offset: usize) -> (r: usize)
        requires
            self.wf(),
        ensures
            r == self.from_buffer(buffer_offset as int),
    {
        proof {
            lemma_summary_sound(self.excerpt.bytes());
        }
        let len: usize = self.excerpt.text_summary.len;
        let within: usize = buffer_offset.saturating_sub(self.excerpt.buffer_start_offset());
        self.excerpt_offset + if within > len {
            len
        } else {
            within
        }
    }

    /// Maps a point of the buffer to one of the multibuffer.
    pub fn map_point_from_buffer(&self, buffer_position: Point) -> (r: Point)
        requires
            self.wf(),
            self.point_from_buffer(buffer_position@).fits(),
        ensures
            r@ == self.point_from_buffer(buffer_position@),
    {
        proof {
            lemma_summary_sound(self.excerpt.bytes());
        }
        let lines = self.excerpt.text_summary.lines;
        let within = buffer_position.saturating_minus(self.excerpt.buffer_start_point());
        self.excerpt_position.plus(within.earlier(Point::new(lines.row + 1, 0)))
    }

    /// Maps a range of the buffer to one of the multibuffer.
    pub fn map_range_from_buffer(&self, buffer_range: Range<usize>) -> (r: Range<usize>)
        requires
            self.wf(),
        ensures
            r.start == self.from_buffer(buffer_range.start as int),
            r.end == self.from_buffer(buffer_range.end as int),
    {
        self.map_offset_from_buffer(buffer_range.start)..self.map_offset_from_buffer(
            buffer_range.end,
        )
    }

    /// Whether the excerpt shows all of a range of the buffer.
    pub fn contains_buffer_range(&self, range: Range<usize>) -> (r: bool)
        requires
            self.wf(),
        ensures
            r == (self.excerpt.start() <= range.start && range.end <= self.excerpt.end()),
    {
        range.start >= self.excerpt.buffer_start_offset() && range.end
            <= self.excerpt.buffer_end_offset()
    }

    pub fn max_buffer_row(&self) -> (r: u32)
        ensures
            r == self.excerpt.max_buffer_row,
    {
        self.excerpt.max_buffer_row
    }
}

/// The excerpts from `from` to before `to`, seen from the multibuffer.
pub open spec fn are_views(
    views: Seq<MultiBufferExcerpt>,
    es: Seq<Excerpt>,
    from: int,
    to: int,
) -> bool {
    &&& views.len() == if to > from {
        to - from
    } else {
        0
    }
    &&& forall|k: int| 0 <= k < views.len() ==> (#[trigger] views[k]).is_at(es, from + k)
}

/// The first excerpt from `from` on that starts at `offset` or behind it.
pub open spec fn starting_from(es: Seq<Excerpt>, offset: int, from: int) -> int
    decreases es.len() - from,
{
    if from >= es.len() {
        es.len() as int
    } else if excerpt_start(es, from) >= offset {
        from
    } else {
        starting_from(es, offset, from + 1)
    }
}

impl MultiBufferSnapshot {
    /// The excerpt at a cursor, seen from the multibuffer.
    pub fn view_at(&self, cursor: &Cursor) -> (r: MultiBufferExcerpt<'_>)
        requires
            self.wf(),
            cursor.wf(self.excerpts@),
            cursor.index < self.excerpts@.len(),
        ensures
            r.is_at(self.excerpts@, cursor.index as int),
            r.wf(),
    {
        proof {
            let es = self.excerpts@;
            let i = cursor.index as int;
            lemma_excerpts_text_step(es, i);
            lemma_excerpts_text_split(es, i + 1);
            assert(es[i].wf());
        }
        MultiBufferExcerpt::new(
            &self.excerpts[cursor.index],
            (cursor.start.len, cursor.start.lines),
        )
    }

    /// All excerpts, seen from the multibuffer.
    pub fn all_excerpts(&self) -> (r: Vec<MultiBufferExcerpt<'_>>)
        requires
            self.wf(),
        ensures
            are_views(r@, self.excerpts@, 0, self.excerpts@.len() as int),
    {
        let mut views: Vec<MultiBufferExcerpt> = Vec::new();
        let mut cursor = self.cursor_start();
        while cursor.index < self.excerpts.len()
            invariant
                self.wf(),
                cursor.wf(self.excerpts@),
                are_views(views@, self.excerpts@, 0, cursor.index as int),
            decreases self.excerpts@.len() - cursor.index,
        {
            views.push(self.view_at(&cursor));
            self.advance(&mut cursor);
        }
        views
    }

    /// The excerpts that a range reaches into, seen from the multibuffer.
    pub fn excerpts_for_range<T: ToOffset>(&self, range: Range<T>) -> (r: Vec<
        MultiBufferExcerpt<'_>,
    >)
        requires
            self.wf(),
            range.start.is_position(*self),
            range.end.is_position(*self),
        ensures
            ({
                let from = seek_index(
                    self.excerpts@,
                    range.start.offset(*self) as usize,
                    Bias::Right,
                    0,
                );
                are_views(
                    r@,
                    self.excerpts@,
                    from,
                    starting_from(self.excerpts@, range.end.offset(*self), from),
                )
            }),
    {
        let start: usize = range.start.to_offset(self);
        let end: usize = range.end.to_offset(self);
        let ghost es = self.excerpts@;
        let mut views: Vec<MultiBufferExcerpt> = Vec::new();
        let mut cursor = self.seek(&start, Bias::Right);
        let ghost from = cursor.index as int;
        while cursor.index < self.excerpts.len() && cursor.start.len < end
            invariant
                self.wf(),
                es == self.excerpts@,
                cursor.wf(es),
                from <= cursor.index,
                are_views(views@, es, from, cursor.index as int),
                starting_from(es, end as int, from) == starting_from(
                    es,
                    end as int,
                    cursor.index as int,
                ),
            decreases es.len() - cursor.index,
        {
            views.push(self.view_at(&cursor));
            self.advance(&mut cursor);
        }
        views
    }

    /// The excerpts from the end of a range backwards, seen from the
    /// multibuffer.
    pub fn excerpts_for_range_rev<T: ToOffset>(&self, range: Range<T>) -> (r: Vec<
        MultiBufferExcerpt<'_>,
    >)
        requires
            self.wf(),
            range.start.is_position(*self),
            range.end.is_position(*self),
        ensures
            ({
                let i = seek_index(
                    self.excerpts@,
                    range.end.offset(*self) as usize,
                    Bias::Left,
                    0,
                );
                let last = if i == self.excerpts@.len() {
                    i - 1
                } else {
                    i
                };
                &&& r@.len() == last + 1
                &&& forall|k: int|
                    0 <= k < r@.len() ==> (#[trigger] r@[k]).is_at(self.excerpts@, last - k)
            }),
    {
        let end: usize = range.end.to_offset(self);
        let ghost es = self.excerpts@;
        let cursor = self.seek(&end, Bias::Left);
        proof {
            lemma_seek_offset(es, end, Bias::Left);
        }
        let mut index: usize = if cursor.index == self.excerpts.len() {
            cursor.index
        } else {
            cursor.index + 1
        };
        let ghost last = index - 1;
        let mut views: Vec<MultiBufferExcerpt> = Vec::new();
        while index > 0
            invariant
                self.wf(),
                es == self.excerpts@,
                index <= last + 1 <= es.len(),
                views@.len() == last + 1 - index,
                forall|k: int| 0 <= k < views@.len() ==> (#[trigger] views@[k]).is_at(es, last - k),
            decreases index,
        {
            index = index - 1;
            let cursor = self.cursor_at(index);
            views.push(self.view_at(&cursor));
        }
        views
    }

    /// The excerpt before the place of an identifier.
    pub fn excerpt_before(&self, id: ExcerptId) -> (r: Option<MultiBufferExcerpt<'_>>)
        requires
            self.wf(),
            self.knows_id(id),
        ensures
            match r {
                Some(view) => self.index_for(id) > 0 && view.is_at(
                    self.excerpts@,
                    self.index_for(id) - 1,
                ),
                None => self.index_for(id) == 0,
            },
    {
        let index: usize = self.index_for_id(id);
        if index > 0 {
            let cursor = self.cursor_at(index - 1);
            Some(self.view_at(&cursor))
        } else {
            None
        }
    }

    /// The excerpt behind the one with an identifier.
    pub fn excerpt_after(&self, id: ExcerptId) -> (r: Option<MultiBufferExcerpt<'_>>)
        requires
            self.wf(),
            self.knows_id(id),
        ensures
            match r {
                Some(view) => self.index_for(id) + 1 < self.excerpts@.len() && view.is_at(
                    self.excerpts@,
                    self.index_for(id) + 1,
                ),
                None => self.index_for(id) + 1 >= self.excerpts@.len(),
            },
    {
        let index: usize = self.index_for_id(id);
        if index < self.excerpts.len() && index + 1 < self.excerpts.len() {
            let cursor = self.cursor_at(index + 1);
            Some(self.view_at(&cursor))
        } else {
            None
        }
    }

    /// The excerpt that shows both ends of a range: the one that shows what
    /// stands behind each of them, or at the end of the text the last one.
    pub open spec fn containing_index(&self, start: int, end: int) -> int {
        let i = edited_index(self.excerpts@, start as usize);
        if i == edited_index(self.excerpts@, end as usize) {
            i
        } else {
            -1
        }
    }

    /// Goes to the excerpt that shows what stands behind an offset, or at the end of
    /// the text to the last one.
    fn seek_shown(&self, offset: usize) -> (r: Cursor)
        requires
            self.wf(),
            self.excerpts@.len() > 0,
        ensures
            r.wf(self.excerpts@),
            r.index == edited_index(self.excerpts@, offset),
            r.index < self.excerpts@.len(),
    {
        let cursor = self.seek(&offset, Bias::Right);
        if cursor.index == self.excerpts.len() {
            self.cursor_at(cursor.index - 1)
        } else {
            cursor
        }
    }

    /// The excerpt that shows both ends of a range, or nothing where there is no
    /// excerpt or the range spans several.
    pub fn excerpt_containing<T: ToOffset>(&self, range: Range<T>) -> (r: Option<
        MultiBufferExcerpt<'_>,
    >)
        requires
            self.wf(),
            range.start.is_position(*self),
            range.end.is_position(*self),
        ensures
            ({
                let i = self.containing_index(
                    range.start.offset(*self),
                    range.end.offset(*self),
                );
                match r {
                    Some(view) => i >= 0 && view.is_at(self.excerpts@, i) && view.wf(),
                    None => i < 0,
                }
            }),
    {
        let start: usize = range.start.to_offset(self);
        let end: usize = range.end.to_offset(self);
        if self.excerpts.len() == 0 {
            return None;
        }
        let cursor = self.seek_shown(start);
        if self.seek_shown(end).index == cursor.index {
            Some(self.view_at(&cursor))
        } else {
            None
        }
    }
}

} // verus!
