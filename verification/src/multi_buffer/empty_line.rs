//! Making an empty line.

use vstd::prelude::*;

use crate::buffer::BufferId;
use crate::snapshot::convert::to_point;
use crate::multi_buffer::queries::{point_in_buffer, point_index};
use crate::multi_buffer::MultiBuffer;
use crate::position::ToPoint;
use crate::text::{Point, Pos};

verus! {

/// A buffer that is asked for an empty line.
#[derive(Clone, Copy, Debug)]
pub struct EmptyLineRequest {
    pub buffer_id: BufferId,
    /// Where the line is asked for in the buffer.
    pub buffer_point: Point,
    /// Whether there has to be an empty line above it and below it.
    pub space_above: bool,
    pub space_below: bool,
    /// Where the line is asked for in the multibuffer, unless that shows a single
    /// buffer. In that case the request is to be made in a transaction.
    pub multibuffer_point: Option<Point>,
}

impl EmptyLineRequest {
    /// Where a line of the buffer is in the multibuffer.
    pub open spec fn line_start(&self, empty_line_start: Point) -> Pos {
        match self.multibuffer_point {
            Some(point) => point@.plus(empty_line_start@.minus(self.buffer_point@)),
            None => empty_line_start@,
        }
    }

    /// The line is as many rows behind where it was asked for in the multibuffer as it is in
    /// the buffer, and starts in the same column, where it is in a later row.
    pub proof fn lemma_line_start(&self, empty_line_start: Point)
        ensures
            ({
                let start = self.line_start(empty_line_start);
                match self.multibuffer_point {
                    Some(point) => {
                        &&& start.row - point.row == empty_line_start.row - self.buffer_point.row
                        &&& empty_line_start.row > self.buffer_point.row ==> start.column
                            == empty_line_start.column
                        &&& empty_line_start == self.buffer_point ==> start == point@
                    },
                    None => start == empty_line_start@,
                }
            }),
    {
    }

    /// Where the empty line is in the multibuffer, once the buffer has said where
    /// it is in the buffer.
    pub fn finish(&self, empty_line_start: Point) -> (r: Point)
        requires
            self.multibuffer_point is Some ==> self.buffer_point@.not_after(empty_line_start@)
                && self.line_start(empty_line_start).fits(),
        ensures
            r@ == self.line_start(empty_line_start),
    {
        match self.multibuffer_point {
            Some(point) => point.plus(empty_line_start.minus(self.buffer_point)),
            None => empty_line_start,
        }
    }
}

impl MultiBuffer {
    /// What to ask of a buffer, so that there is an empty line at a position.
    pub fn insert_empty_line<T: ToPoint>(
        &self,
        position: T,
        space_above: bool,
        space_below: bool,
    ) -> (r: EmptyLineRequest)
        requires
            self.wf(),
            position.is_point_position(self.snapshot),
            position.point(self.snapshot).fits(),
            self.singleton ==> self.buffers@.len() > 0,
            !self.singleton ==> self.snapshot.excerpts@.len() > 0
                && self.snapshot.excerpts@[point_index(
                self.snapshot.excerpts@,
                to_point(position.point(self.snapshot)),
            )].start_pos().plus(position.point(self.snapshot)).fits(),
        ensures
            r.space_above == space_above,
            r.space_below == space_below,
            ({
                let es = self.snapshot.excerpts@;
                let pos = position.point(self.snapshot);
                let i = point_index(es, to_point(pos));
                if self.singleton {
                    &&& r.buffer_id == self.buffers@[0].buffer.remote_id
                    &&& r.buffer_point@ == pos
                    &&& r.multibuffer_point is None
                } else {
                    &&& r.buffer_id == es[i].buffer_id
                    &&& r.buffer_point@ == point_in_buffer(es, i, pos)
                    &&& r.multibuffer_point matches Some(point) && point@ == pos
                }
            }),
    {
        let multibuffer_point = position.to_point(&self.snapshot);
        if let Some(buffer_id) = self.as_singleton() {
            return EmptyLineRequest {
                buffer_id,
                buffer_point: multibuffer_point,
                space_above,
                space_below,
                multibuffer_point: None,
            };
        }
        let (buffer_id, buffer_point) = match self.point_to_buffer_point(multibuffer_point) {
            Some((buffer_id, buffer_point, _)) => (buffer_id, buffer_point),
            None => vstd::pervasive::unreached(),
        };
        EmptyLineRequest {
            buffer_id,
            buffer_point,
            space_above,
            space_below,
            multibuffer_point: Some(multibuffer_point),
        }
    }
}

} // verus!
