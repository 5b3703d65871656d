//! The ways to name a position in a multibuffer.

use vstd::prelude::*;

use crate::anchor::Anchor;
use crate::snapshot::MultiBufferSnapshot;
use crate::text::{
    find, offset_utf16_at, point_at, point_utf16_at, OffsetUtf16, Point, PointUtf16, Pos,
};

verus! {

/// A position that can be turned into an offset.
pub trait ToOffset {
    /// Whether the position is one of the multibuffer.
    spec fn is_position(&self, snapshot: MultiBufferSnapshot) -> bool;

    /// Its offset.
    spec fn offset(&self, snapshot: MultiBufferSnapshot) -> int;

    fn to_offset(&self, snapshot: &MultiBufferSnapshot) -> (r: usize)
        requires
            snapshot.wf(),
            self.is_position(*snapshot),
        ensures
            r == self.offset(*snapshot),
            r <= snapshot.bytes().len(),
    ;
}

/// A position that can be turned into a UTF-16 offset.
pub trait ToOffsetUtf16 {
    spec fn is_utf16_position(&self, snapshot: MultiBufferSnapshot) -> bool;

    spec fn utf16_offset(&self, snapshot: MultiBufferSnapshot) -> int;

    fn to_offset_utf16(&self, snapshot: &MultiBufferSnapshot) -> (r: OffsetUtf16)
        requires
            snapshot.wf(),
            self.is_utf16_position(*snapshot),
        ensures
            r@ == self.utf16_offset(*snapshot),
    ;
}

/// A position that can be turned into a row and a column.
pub trait ToPoint {
    spec fn is_point_position(&self, snapshot: MultiBufferSnapshot) -> bool;

    spec fn point(&self, snapshot: MultiBufferSnapshot) -> Pos;

    fn to_point(&self, snapshot: &MultiBufferSnapshot) -> (r: Point)
        requires
            snapshot.wf(),
            self.is_point_position(*snapshot),
        ensures
            r@ == self.point(*snapshot),
    ;
}

/// A position that can be turned into a row and a UTF-16 column.
pub trait ToPointUtf16 {
    spec fn is_point_utf16_position(&self, snapshot: MultiBufferSnapshot) -> bool;

    spec fn point_utf16(&self, snapshot: MultiBufferSnapshot) -> Pos;

    fn to_point_utf16(&self, snapshot: &MultiBufferSnapshot) -> (r: PointUtf16)
        requires
            snapshot.wf(),
            self.is_point_utf16_position(*snapshot),
        ensures
            r@ == self.point_utf16(*snapshot),
    ;
}

impl ToOffset for usize {
    open spec fn is_position(&self, snapshot: MultiBufferSnapshot) -> bool {
        *self <= snapshot.bytes().len()
    }

    open spec fn offset(&self, snapshot: MultiBufferSnapshot) -> int {
        *self as int
    }

    fn to_offset(&self, snapshot: &MultiBufferSnapshot) -> (r: usize) {
        *self
    }
}

impl ToOffset for Point {
    open spec fn is_position(&self, snapshot: MultiBufferSnapshot) -> bool {
        snapshot.point_fits(*self) && snapshot.offset_of_point(*self) <= snapshot.bytes().len()
    }

    open spec fn offset(&self, snapshot: MultiBufferSnapshot) -> int {
        snapshot.offset_of_point(*self)
    }

    fn to_offset(&self, snapshot: &MultiBufferSnapshot) -> (r: usize) {
        snapshot.point_to_offset(*self)
    }
}

impl ToOffset for OffsetUtf16 {
    open spec fn is_position(&self, snapshot: MultiBufferSnapshot) -> bool {
        true
    }

    open spec fn offset(&self, snapshot: MultiBufferSnapshot) -> int {
        find(snapshot.bytes(), *self, 0)
    }

    fn to_offset(&self, snapshot: &MultiBufferSnapshot) -> (r: usize) {
        snapshot.offset_utf16_to_offset(*self)
    }
}

impl ToOffset for PointUtf16 {
    open spec fn is_position(&self, snapshot: MultiBufferSnapshot) -> bool {
        snapshot.point_utf16_fits(*self) && snapshot.offset_of_point_utf16(*self)
            <= snapshot.bytes().len()
    }

    open spec fn offset(&self, snapshot: MultiBufferSnapshot) -> int {
        snapshot.offset_of_point_utf16(*self)
    }

    fn to_offset(&self, snapshot: &MultiBufferSnapshot) -> (r: usize) {
        snapshot.point_utf16_to_offset(*self)
    }
}

impl ToOffset for Anchor {
    open spec fn is_position(&self, snapshot: MultiBufferSnapshot) -> bool {
        snapshot.knows_id(self.excerpt_id)
    }

    open spec fn offset(&self, snapshot: MultiBufferSnapshot) -> int {
        snapshot.anchor_offset(*self)
    }

    fn to_offset(&self, snapshot: &MultiBufferSnapshot) -> (r: usize) {
        snapshot.offset_for_anchor(self)
    }
}

impl ToOffsetUtf16 for OffsetUtf16 {
    open spec fn is_utf16_position(&self, snapshot: MultiBufferSnapshot) -> bool {
        true
    }

    open spec fn utf16_offset(&self, snapshot: MultiBufferSnapshot) -> int {
        self@
    }

    fn to_offset_utf16(&self, snapshot: &MultiBufferSnapshot) -> (r: OffsetUtf16) {
        *self
    }
}

impl ToOffsetUtf16 for usize {
    open spec fn is_utf16_position(&self, snapshot: MultiBufferSnapshot) -> bool {
        true
    }

    open spec fn utf16_offset(&self, snapshot: MultiBufferSnapshot) -> int {
        offset_utf16_at(
            snapshot.bytes(),
            if *self <= snapshot.bytes().len() {
                *self as int
            } else {
                snapshot.bytes().len() as int
            },
        )
    }

    fn to_offset_utf16(&self, snapshot: &MultiBufferSnapshot) -> (r: OffsetUtf16) {
        snapshot.offset_to_offset_utf16(*self)
    }
}

impl ToOffsetUtf16 for Anchor {
    open spec fn is_utf16_position(&self, snapshot: MultiBufferSnapshot) -> bool {
        snapshot.knows_id(self.excerpt_id)
    }

    open spec fn utf16_offset(&self, snapshot: MultiBufferSnapshot) -> int {
        offset_utf16_at(snapshot.bytes(), snapshot.anchor_offset(*self))
    }

    fn to_offset_utf16(&self, snapshot: &MultiBufferSnapshot) -> (r: OffsetUtf16) {
        snapshot.summary_for_anchor(self)
    }
}

impl ToPoint for usize {
    open spec fn is_point_position(&self, snapshot: MultiBufferSnapshot) -> bool {
        true
    }

    open spec fn point(&self, snapshot: MultiBufferSnapshot) -> Pos {
        point_at(
            snapshot.bytes(),
            if *self <= snapshot.bytes().len() {
                *self as int
            } else {
                snapshot.bytes().len() as int
            },
        )
    }

    fn to_point(&self, snapshot: &MultiBufferSnapshot) -> (r: Point) {
        snapshot.offset_to_point(*self)
    }
}

impl ToPoint for Point {
    open spec fn is_point_position(&self, snapshot: MultiBufferSnapshot) -> bool {
        true
    }

    open spec fn point(&self, snapshot: MultiBufferSnapshot) -> Pos {
        self@
    }

    fn to_point(&self, snapshot: &MultiBufferSnapshot) -> (r: Point) {
        *self
    }
}

impl ToPoint for Anchor {
    open spec fn is_point_position(&self, snapshot: MultiBufferSnapshot) -> bool {
        snapshot.knows_id(self.excerpt_id)
    }

    open spec fn point(&self, snapshot: MultiBufferSnapshot) -> Pos {
        point_at(snapshot.bytes(), snapshot.anchor_offset(*self))
    }

    fn to_point(&self, snapshot: &MultiBufferSnapshot) -> (r: Point) {
        snapshot.summary_for_anchor(self)
    }
}

impl ToPointUtf16 for usize {
    open spec fn is_point_utf16_position(&self, snapshot: MultiBufferSnapshot) -> bool {
        true
    }

    open spec fn point_utf16(&self, snapshot: MultiBufferSnapshot) -> Pos {
        point_utf16_at(
            snapshot.bytes(),
            if *self <= snapshot.bytes().len() {
                *self as int
            } else {
                snapshot.bytes().len() as int
            },
        )
    }

    fn to_point_utf16(&self, snapshot: &MultiBufferSnapshot) -> (r: PointUtf16) {
        snapshot.offset_to_point_utf16(*self)
    }
}

impl ToPointUtf16 for Point {
    open spec fn is_point_utf16_position(&self, snapshot: MultiBufferSnapshot) -> bool {
        snapshot.point_fits(*self)
    }

    open spec fn point_utf16(&self, snapshot: MultiBufferSnapshot) -> Pos {
        snapshot.point_utf16_of_point(*self)
    }

    fn to_point_utf16(&self, snapshot: &MultiBufferSnapshot) -> (r: PointUtf16) {
        snapshot.point_to_point_utf16(*self)
    }
}

impl ToPointUtf16 for PointUtf16 {
    open spec fn is_point_utf16_position(&self, snapshot: MultiBufferSnapshot) -> bool {
        true
    }

    open spec fn point_utf16(&self, snapshot: MultiBufferSnapshot) -> Pos {
        self@
    }

    fn to_point_utf16(&self, snapshot: &MultiBufferSnapshot) -> (r: PointUtf16) {
        *self
    }
}

} // verus!
