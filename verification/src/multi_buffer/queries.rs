//! Finding the way between a multibuffer and its buffers.

use std::ops::Range;
use vstd::prelude::*;

use crate::buffer::{BufferId, BufferSnapshot, TextAnchor};
use crate::excerpt::{
    excerpt_start, excerpts_text, lemma_excerpt_position, lemma_excerpts_text_split,
    lemma_excerpts_text_step, Excerpt, ExcerptId, ExcerptRange,
};
use crate::snapshot::convert::to_point;
use crate::multi_buffer::edit::{edited_index, lemma_edited_index, offset_in_buffer};
use crate::multi_buffer::MultiBuffer;
use crate::position::{ToOffset, ToPoint};
use crate::snapshot::lines::lemma_excerpt_rows;
use crate::snapshot::{lemma_seek_offset, lemma_seek_point, seek_index, Cursor, MultiBufferSnapshot};
use crate::text::{lemma_summary_sound, summarize, Bias, Point, Pos};

verus! {

/// The excerpt that shows a point, or the last one.
pub open spec fn point_index(es: Seq<Excerpt>, point: Point) -> int {
    let i = seek_index(es, point, Bias::Right, 0);
    if i == es.len() {
        i - 1
    } else {
        i
    }
}

/// A point of the multibuffer, counted from the start of the `i`-th excerpt in its
/// buffer: the row is that of the buffer, and so is the column, save in the first
/// row of an excerpt behind the first that starts within a line, where the column
/// is that of the multibuffer.
pub open spec fn point_in_buffer(es: Seq<Excerpt>, i: int, point: Pos) -> Pos {
    es[i].start_pos().plus(point).minus(summarize(excerpts_text(es.take(i))).lines)
}

impl MultiBufferSnapshot {
    /// The cursor at the excerpt that an edit at an offset falls into.
    fn cursor_for_offset(&self, offset: usize) -> (r: Cursor)
        requires
            self.wf(),
            self.excerpts@.len() > 0,
            offset <= self.bytes().len(),
        ensures
            r.wf(self.excerpts@),
            r.index == edited_index(self.excerpts@, offset),
            r.index < self.excerpts@.len(),
            r.start.len <= offset,
            self.excerpts@[r.index as int].start() <= offset_in_buffer(
                self.excerpts@,
                r.index as int,
                offset as int,
            ) <= self.excerpts@[r.index as int].end(),
    {
        let mut cursor = self.seek(&offset, Bias::Right);
        proof {
            lemma_seek_offset(self.excerpts@, offset, Bias::Right);
            lemma_edited_index(self.excerpts@, offset);
        }
        if cursor.index == self.excerpts.len() {
            cursor = self.cursor_at(cursor.index - 1);
        }
        cursor
    }

    /// The buffer that is shown at a position, and the offset in it. At the end of
    /// the multibuffer that is the end of the last excerpt.
    pub fn point_to_buffer_offset<T: ToOffset>(&self, point: T) -> (r: Option<
        (&BufferSnapshot, usize),
    >)
        requires
            self.wf(),
            point.is_position(*self),
        ensures
            match r {
                Some((buffer, offset)) => {
                    let es = self.excerpts@;
                    let i = edited_index(es, point.offset(*self) as usize);
                    &&& es.len() > 0
                    &&& *buffer == *es[i].buffer
                    &&& offset == offset_in_buffer(es, i, point.offset(*self))
                },
                None => self.excerpts@.len() == 0,
            },
    {
        let offset: usize = point.to_offset(self);
        if self.excerpts.len() == 0 {
            return None;
        }
        let cursor = self.cursor_for_offset(offset);
        let excerpt = &self.excerpts[cursor.index];
        Some(
            (&excerpt.buffer, excerpt.buffer_start_offset() + (offset - cursor.start.len)),
        )
    }
}

/// The first excerpt from `from` on that starts behind an offset.
pub open spec fn starting_past(es: Seq<Excerpt>, offset: int, from: int) -> int
    decreases es.len() - from,
{
    if from >= es.len() {
        es.len() as int
    } else if excerpt_start(es, from) > offset {
        from
    } else {
        starting_past(es, offset, from + 1)
    }
}

/// The part of a range that the `i`-th excerpt shows, in its buffer.
pub open spec fn part_of_range(
    es: Seq<Excerpt>,
    i: int,
    start: int,
    end: int,
) -> (BufferId, Range<usize>, ExcerptId) {
    let from = excerpt_start(es, i);
    let to = from + es[i].bytes().len();
    (
        es[i].buffer_id,
        Range {
            start: (es[i].start() + (if start > from {
                start
            } else {
                from
            }) - from) as usize,
            end: (es[i].start() + (if end < to {
                end
            } else {
                to
            }) - from) as usize,
        },
        es[i].id,
    )
}

/// The excerpts of one buffer, with the stretches that they show.
pub open spec fn excerpts_of(es: Seq<Excerpt>, buffer_id: BufferId) -> Seq<
    (ExcerptId, ExcerptRange<TextAnchor>),
>
    decreases es.len(),
{
    if es.len() == 0 {
        seq![]
    } else {
        let front = excerpts_of(es.drop_last(), buffer_id);
        if es.last().buffer_id == buffer_id {
            front.push((es.last().id, es.last().range))
        } else {
            front
        }
    }
}

/// The excerpts of one buffer, among the first `n`, by their index.
pub open spec fn indexes_of(es: Seq<Excerpt>, buffer_id: BufferId, n: int) -> Seq<int>
    decreases n,
{
    if n <= 0 {
        seq![]
    } else {
        let front = indexes_of(es, buffer_id, n - 1);
        if es[n - 1].buffer_id == buffer_id {
            front.push(n - 1)
        } else {
            front
        }
    }
}

/// Whether a range of points is what the `i`-th excerpt shows.
pub open spec fn is_range_of(range: Range<Point>, es: Seq<Excerpt>, i: int) -> bool {
    let start = summarize(excerpts_text(es.take(i))).lines;
    &&& range.start@ == start
    &&& range.end@ == start.plus(summarize(es[i].bytes()).lines)
}

impl MultiBuffer {
    /// The buffer and the excerpt that are shown at a position, and the offset in
    /// the buffer. At the end of the multibuffer that is the end of the last
    /// excerpt.
    pub fn point_to_buffer_offset<T: ToOffset>(&self, point: T) -> (r: Option<
        (BufferId, usize, ExcerptId),
    >)
        requires
            self.wf(),
            point.is_position(self.snapshot),
        ensures
            ({
                let es = self.snapshot.excerpts@;
                let i = edited_index(es, point.offset(self.snapshot) as usize);
                r == if es.len() > 0 {
                    Some(
                        (
                            es[i].buffer_id,
                            offset_in_buffer(es, i, point.offset(self.snapshot)) as usize,
                            es[i].id,
                        ),
                    )
                } else {
                    None
                }
            }),
    {
        let offset: usize = point.to_offset(&self.snapshot);
        if self.snapshot.excerpts.len() == 0 {
            return None;
        }
        let cursor = self.snapshot.cursor_for_offset(offset);
        let excerpt = &self.snapshot.excerpts[cursor.index];
        Some(
            (
                excerpt.buffer_id,
                excerpt.buffer_start_offset() + (offset - cursor.start.len),
                excerpt.id,
            ),
        )
    }

    /// The buffer and the excerpt that are shown at a position, and the point in the
    /// buffer. At the end of the multibuffer that is the end of the last excerpt.
    pub fn point_to_buffer_point<T: ToPoint>(&self, point: T) -> (r: Option<
        (BufferId, Point, ExcerptId),
    >)
        requires
            self.wf(),
            point.is_point_position(self.snapshot),
            point.point(self.snapshot).fits(),
            self.snapshot.excerpts@.len() > 0 ==> self.snapshot.excerpts@[point_index(
                self.snapshot.excerpts@,
                to_point(point.point(self.snapshot)),
            )].start_pos().plus(point.point(self.snapshot)).fits(),
        ensures
            ({
                let es = self.snapshot.excerpts@;
                let pos = point.point(self.snapshot);
                let i = point_index(es, to_point(pos));
                match r {
                    Some((buffer_id, found, id)) => {
                        &&& es.len() > 0
                        &&& buffer_id == es[i].buffer_id
                        &&& found@ == point_in_buffer(es, i, pos)
                        &&& id == es[i].id
                    },
                    None => es.len() == 0,
                }
            }),
    {
        let point = point.to_point(&self.snapshot);
        if self.snapshot.excerpts.len() == 0 {
            return None;
        }
        let ghost es = self.snapshot.excerpts@;
        let mut cursor = self.snapshot.seek(&point, Bias::Right);
        proof {
            lemma_seek_point(es, point, Bias::Right);
            assert(es.take(es.len() as int) =~= es);
            lemma_excerpt_rows(es, es.len() - 1);
        }
        if cursor.index == self.snapshot.excerpts.len() {
            cursor = self.snapshot.cursor_at(cursor.index - 1);
        }
        let excerpt = &self.snapshot.excerpts[cursor.index];
        proof {
            lemma_excerpt_rows(es, cursor.index as int);
        }
        let found = excerpt.buffer_start_point().plus(point).minus(cursor.start.lines);
        Some((excerpt.buffer_id, found, excerpt.id))
    }

    /// The parts of a range, in the buffers that show them.
    pub fn range_to_buffer_ranges<T: ToOffset>(&self, range: Range<T>) -> (r: Vec<
        (BufferId, Range<usize>, ExcerptId),
    >)
        requires
            self.wf(),
            range.start.is_position(self.snapshot),
            range.end.is_position(self.snapshot),
        ensures
            ({
                let es = self.snapshot.excerpts@;
                let start = range.start.offset(self.snapshot);
                let end = range.end.offset(self.snapshot);
                let from = edited_index(es, start as usize);
                let to = starting_past(es, end, from);
                if es.len() == 0 {
                    r@.len() == 0
                } else {
                    &&& r@.len() == to - from
                    &&& forall|k: int|
                        0 <= k < r@.len() ==> #[trigger] r@[k] == part_of_range(
                            es,
                            from + k,
                            start,
                            end,
                        )
                }
            }),
    {
        let start: usize = range.start.to_offset(&self.snapshot);
        let end: usize = range.end.to_offset(&self.snapshot);
        let mut result: Vec<(BufferId, Range<usize>, ExcerptId)> = Vec::new();
        if self.snapshot.excerpts.len() == 0 {
            return result;
        }
        let ghost es = self.snapshot.excerpts@;
        let mut cursor = self.snapshot.cursor_for_offset(start);
        let ghost from = cursor.index as int;
        proof {
            lemma_edited_index(es, start);
        }
        while cursor.index < self.snapshot.excerpts.len() && cursor.start.len <= end
            invariant
                self.wf(),
                es == self.snapshot.excerpts@,
                start <= self.snapshot.bytes().len(),
                end <= self.snapshot.bytes().len(),
                cursor.wf(es),
                from <= cursor.index,
                cursor.index == from ==> cursor.index < es.len() && cursor.start.len <= start
                    <= cursor.start.len + es[from].bytes().len(),
                cursor.index > from ==> start <= cursor.start.len,
                starting_past(es, end as int, from) == starting_past(
                    es,
                    end as int,
                    cursor.index as int,
                ),
                result@.len() == cursor.index - from,
                forall|k: int|
                    0 <= k < result@.len() ==> #[trigger] result@[k] == part_of_range(
                        es,
                        from + k,
                        start as int,
                        end as int,
                    ),
            decreases es.len() - cursor.index,
        {
            let excerpt = &self.snapshot.excerpts[cursor.index];
            proof {
                let i = cursor.index as int;
                assert(es[i].wf());
                lemma_summary_sound(es[i].bytes());
                lemma_excerpt_position(es[i], 0);
                lemma_excerpts_text_step(es, i);
                lemma_excerpts_text_split(es, i + 1);
            }
            let content_end: usize = cursor.start.len + excerpt.text_summary.len;
            let excerpt_start: usize = excerpt.buffer_start_offset();
            let from_offset: usize = if start > cursor.start.len {
                start
            } else {
                cursor.start.len
            };
            let to_offset: usize = if end < content_end {
                end
            } else {
                content_end
            };
            result.push(
                (
                    excerpt.buffer_id,
                    excerpt_start + (from_offset - cursor.start.len)..excerpt_start + (to_offset
                        - cursor.start.len),
                    excerpt.id,
                ),
            );
            self.snapshot.advance(&mut cursor);
        }
        result
    }

    /// The excerpt that is shown at a position, its buffer, and the stretch that it
    /// shows. At the end of the multibuffer that is the last excerpt.
    pub fn excerpt_containing<T: ToOffset>(&self, position: T) -> (r: Option<
        (ExcerptId, BufferId, Range<TextAnchor>),
    >)
        requires
            self.wf(),
            position.is_position(self.snapshot),
        ensures
            ({
                let es = self.snapshot.excerpts@;
                let i = edited_index(es, position.offset(self.snapshot) as usize);
                r == if es.len() > 0 {
                    Some((es[i].id, es[i].buffer_id, es[i].range.context))
                } else {
                    None
                }
            }),
    {
        let offset: usize = position.to_offset(&self.snapshot);
        if self.snapshot.excerpts.len() == 0 {
            return None;
        }
        let cursor = self.snapshot.cursor_for_offset(offset);
        let excerpt = &self.snapshot.excerpts[cursor.index];
        Some(
            (
                excerpt.id,
                excerpt.buffer_id,
                excerpt.range.context.start..excerpt.range.context.end,
            ),
        )
    }

    /// The excerpts of a buffer, with the stretches that they show.
    pub fn excerpts_for_buffer(&self, buffer_id: BufferId) -> (r: Vec<
        (ExcerptId, ExcerptRange<TextAnchor>),
    >)
        ensures
            r@ == excerpts_of(self.snapshot.excerpts@, buffer_id),
    {
        let ghost es = self.snapshot.excerpts@;
        let mut excerpts: Vec<(ExcerptId, ExcerptRange<TextAnchor>)> = Vec::new();
        let mut i: usize = 0;
        assert(es.take(0) =~= Seq::<Excerpt>::empty());
        while i < self.snapshot.excerpts.len()
            invariant
                es == self.snapshot.excerpts@,
                i <= es.len(),
                excerpts@ == excerpts_of(es.take(i as int), buffer_id),
            decreases es.len() - i,
        {
            assert(es.take(i + 1).drop_last() =~= es.take(i as int));
            let excerpt = &self.snapshot.excerpts[i];
            if excerpt.buffer_id == buffer_id {
                excerpts.push((excerpt.id, excerpt.range.clone()));
            }
            i = i + 1;
        }
        assert(es.take(es.len() as int) =~= es);
        excerpts
    }

    /// Where the excerpts of a buffer stand.
    pub fn excerpt_ranges_for_buffer(&self, buffer_id: BufferId) -> (r: Vec<Range<Point>>)
        requires
            self.wf(),
        ensures
            ({
                let es = self.snapshot.excerpts@;
                let indexes = indexes_of(es, buffer_id, es.len() as int);
                &&& r@.len() == indexes.len()
                &&& forall|k: int|
                    0 <= k < r@.len() ==> is_range_of(#[trigger] r@[k], es, indexes[k])
            }),
    {
        let ghost es = self.snapshot.excerpts@;
        let mut ranges: Vec<Range<Point>> = Vec::new();
        let mut cursor = self.snapshot.cursor_start();
        while cursor.index < self.snapshot.excerpts.len()
            invariant
                self.wf(),
                es == self.snapshot.excerpts@,
                cursor.wf(es),
                ranges@.len() == indexes_of(es, buffer_id, cursor.index as int).len(),
                forall|k: int|
                    0 <= k < ranges@.len() ==> is_range_of(
                        #[trigger] ranges@[k],
                        es,
                        indexes_of(es, buffer_id, cursor.index as int)[k],
                    ),
            decreases es.len() - cursor.index,
        {
            let excerpt = &self.snapshot.excerpts[cursor.index];
            proof {
                let i = cursor.index as int;
                lemma_excerpt_rows(es, i);
                lemma_excerpts_text_step(es, i);
                lemma_excerpts_text_split(es, i + 1);
                lemma_summary_sound(es[i].bytes());
                lemma_summary_sound(excerpts_text(es.take(i)));
                assert(es[i].wf());
            }
            if excerpt.buffer_id == buffer_id {
                let start = cursor.start.lines;
                ranges.push(start..start.plus(excerpt.text_summary.lines));
            }
            self.snapshot.advance(&mut cursor);
        }
        ranges
    }

    /// The buffers of the excerpts, in order.
    pub fn excerpt_buffer_ids(&self) -> (r: Vec<BufferId>)
        ensures
            r@ == self.snapshot.excerpts@.map_values(|e: Excerpt| e.buffer_id),
    {
        let ghost all = self.snapshot.excerpts@.map_values(|e: Excerpt| e.buffer_id);
        let mut ids: Vec<BufferId> = Vec::new();
        let mut i: usize = 0;
        while i < self.snapshot.excerpts.len()
            invariant
                all == self.snapshot.excerpts@.map_values(|e: Excerpt| e.buffer_id),
                i <= self.snapshot.excerpts@.len(),
                ids@ == all.take(i as int),
            decreases self.snapshot.excerpts@.len() - i,
        {
            ids.push(self.snapshot.excerpts[i].buffer_id);
            assert(ids@ =~= all.take(i + 1));
            i = i + 1;
        }
        assert(all.take(self.snapshot.excerpts@.len() as int) =~= all);
        ids
    }
}

} // verus!
