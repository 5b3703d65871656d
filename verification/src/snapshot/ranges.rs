//! Ranges of a multibuffer, taken apart by excerpt.

use std::ops::Range;
use vstd::prelude::*;

use crate::anchor::Anchor;
use crate::buffer::BufferSnapshot;
use crate::excerpt::{
    excerpt_start, excerpts_text, lemma_excerpts_text_split, lemma_excerpts_text_step, Excerpt,
    ExcerptId,
};
use crate::position::{ToOffset, ToPoint};
use crate::snapshot::excerpt_view::clamped;
use crate::snapshot::{excerpts_wf, lemma_seek, seek_ends, seek_index, Cursor, MultiBufferSnapshot};
use crate::text::{lemma_summary_sound, Bias};

verus! {

/// The part of a range that lies in one excerpt.
#[derive(Clone, Copy, Debug)]
pub struct Piece {
    /// The excerpt.
    pub index: usize,
    /// The part of the range, in the multibuffer.
    pub start: usize,
    pub end: usize,
}

/// The excerpt in which a range that starts at `start` goes on, no excerpt before
/// the `from`-th being looked at.
pub open spec fn piece_index(es: Seq<Excerpt>, start: usize, from: int) -> int {
    if start >= excerpt_start(es, from + 1) {
        let i = seek_index(es, start, Bias::Right, from);
        if start == excerpts_text(es).len() {
            i - 1
        } else {
            i
        }
    } else {
        from
    }
}

/// The part of a range that lies in the `i`-th excerpt.
pub open spec fn piece_of(es: Seq<Excerpt>, i: int, range: Range<usize>) -> Piece {
    let start = excerpt_start(es, i);
    let end = start + es[i].bytes().len();
    Piece {
        index: i as usize,
        start: if range.start < start {
            start as usize
        } else {
            range.start
        },
        end: if range.end > end {
            end as usize
        } else {
            range.end
        },
    }
}

/// The parts of the ranges from the `k`-th on, no excerpt before the `from`-th
/// being looked at.
pub open spec fn pieces_from(
    es: Seq<Excerpt>,
    ranges: Seq<Range<usize>>,
    from: int,
    k: int,
) -> Seq<Piece>
    decreases ranges.len() - k, es.len() - from,
{
    let i = piece_index(es, ranges[k].start, from);
    if !(0 <= k < ranges.len()) || !(from <= i < es.len()) {
        seq![]
    } else if ranges[k].end > excerpt_start(es, i + 1) {
        seq![piece_of(es, i, ranges[k])] + pieces_from(es, ranges, i + 1, k)
    } else {
        seq![piece_of(es, i, ranges[k])] + pieces_from(es, ranges, i, k + 1)
    }
}

/// Where an offset lies in the buffer of the `i`-th excerpt, or the nearest place
/// that the excerpt shows.
pub open spec fn nearest_in_buffer(es: Seq<Excerpt>, i: int, offset: int) -> int {
    es[i].start() + clamped(offset - excerpt_start(es, i), es[i].bytes().len() as int)
}

/// The range of offsets of a range.
pub open spec fn offset_range<T: ToOffset>(
    range: Range<T>,
    snapshot: MultiBufferSnapshot,
) -> Range<usize> {
    Range {
        start: range.start.offset(snapshot) as usize,
        end: range.end.offset(snapshot) as usize,
    }
}

/// The ranges of offsets of ranges.
pub open spec fn offset_ranges<T: ToOffset>(
    ranges: Seq<Range<T>>,
    snapshot: MultiBufferSnapshot,
) -> Seq<Range<usize>> {
    ranges.map_values(|range: Range<T>| offset_range(range, snapshot))
}

/// The part of a range in one excerpt, held by anchors.
pub open spec fn anchored_piece(es: Seq<Excerpt>, piece: Piece) -> Range<Anchor> {
    let i = piece.index as int;
    let e = es[i];
    Range {
        start: Anchor {
            buffer_id: Some(e.buffer_id),
            excerpt_id: e.id,
            text_anchor: e.buffer.anchor_spec(
                nearest_in_buffer(es, i, piece.start as int),
                Bias::Left,
            ),
        },
        end: Anchor {
            buffer_id: Some(e.buffer_id),
            excerpt_id: e.id,
            text_anchor: e.buffer.anchor_spec(
                nearest_in_buffer(es, i, piece.end as int),
                Bias::Right,
            ),
        },
    }
}

/// The excerpt in which a range goes on is one of those that are looked at.
pub proof fn lemma_piece_index(es: Seq<Excerpt>, start: usize, from: int)
    requires
        excerpts_wf(es),
        0 <= from < es.len(),
        start <= excerpts_text(es).len(),
    ensures
        from <= piece_index(es, start, from) < es.len(),
{
    assert(es.take(es.len() as int) =~= es);
    lemma_seek(es, start, Bias::Right, from);
    let i = seek_index(es, start, Bias::Right, from);
    if start >= excerpt_start(es, from + 1) {
        lemma_summary_sound(excerpts_text(es.take(from + 1)));
        if i == from {
            assert(seek_ends(es, start, Bias::Right, from));
        }
        if i == es.len() {
            assert(!seek_ends(es, start, Bias::Right, i - 1));
            lemma_summary_sound(excerpts_text(es));
        } else if start == excerpts_text(es).len() {
            assert(seek_ends(es, start, Bias::Right, i));
            lemma_summary_sound(excerpts_text(es.take(i + 1)));
            lemma_excerpts_text_split(es, i + 1);
        }
    }
}

impl MultiBufferSnapshot {
    /// Whether ranges are ranges of the multibuffer.
    pub open spec fn can_split<T: ToOffset>(&self, ranges: Seq<Range<T>>) -> bool {
        forall|k: int|
            0 <= k < ranges.len() ==> (#[trigger] ranges[k]).start.is_position(*self)
                && ranges[k].end.is_position(*self)
    }

    /// The cursor at the excerpt in which a range goes on.
    fn piece_cursor(&self, start: usize, cursor: Cursor) -> (r: Cursor)
        requires
            self.wf(),
            cursor.wf(self.excerpts@),
            cursor.index < self.excerpts@.len(),
            start <= self.bytes().len(),
        ensures
            r.wf(self.excerpts@),
            r.index == piece_index(self.excerpts@, start, cursor.index as int),
            cursor.index <= r.index < self.excerpts@.len(),
    {
        let ghost es = self.excerpts@;
        let ghost from = cursor.index as int;
        proof {
            lemma_piece_index(es, start, from);
            lemma_seek(es, start, Bias::Right, from);
            lemma_summary_sound(excerpts_text(es.take(from + 1)));
        }
        if start < self.cursor_end(&cursor).len {
            return cursor;
        }
        let mut found = cursor;
        while found.index < self.excerpts.len() && start >= self.cursor_end(&found).len
            invariant
                self.wf(),
                es == self.excerpts@,
                found.wf(es),
                from <= found.index <= es.len(),
                seek_index(es, start, Bias::Right, from) == seek_index(
                    es,
                    start,
                    Bias::Right,
                    found.index as int,
                ),
            decreases es.len() - found.index,
        {
            proof {
                lemma_summary_sound(excerpts_text(es.take(found.index + 1)));
            }
            self.advance(&mut found);
        }
        proof {
            if found.index < es.len() {
                lemma_summary_sound(excerpts_text(es.take(found.index + 1)));
            }
        }
        if start == self.len() {
            assert(found.index > 0);
            self.cursor_at(found.index - 1)
        } else {
            found
        }
    }

    /// The parts of ranges in the excerpts, in order.
    fn pieces(&self, ranges: &Vec<Range<usize>>) -> (r: Vec<Piece>)
        requires
            self.wf(),
            forall|k: int|
                0 <= k < ranges@.len() ==> (#[trigger] ranges@[k]).start <= self.bytes().len()
                    && ranges@[k].end <= self.bytes().len(),
        ensures
            r@ == pieces_from(self.excerpts@, ranges@, 0, 0),
            forall|k: int|
                0 <= k < r@.len() ==> (#[trigger] r@[k]).index < self.excerpts@.len(),
    {
        let ghost es = self.excerpts@;
        let ghost all = pieces_from(es, ranges@, 0, 0);
        let mut pieces: Vec<Piece> = Vec::new();
        if self.excerpts.len() == 0 {
            assert(pieces@ =~= all);
            return pieces;
        }
        let mut cursor = self.cursor_start();
        let mut k: usize = 0;
        assert(pieces@ + all =~= all);
        while k < ranges.len()
            invariant
                self.wf(),
                es == self.excerpts@,
                k <= ranges@.len(),
                forall|k: int|
                    0 <= k < ranges@.len() ==> (#[trigger] ranges@[k]).start
                        <= self.bytes().len() && ranges@[k].end <= self.bytes().len(),
                cursor.wf(es),
                cursor.index < es.len(),
                pieces@ + pieces_from(es, ranges@, cursor.index as int, k as int) == all,
                forall|j: int| 0 <= j < pieces@.len() ==> (#[trigger] pieces@[j]).index < es.len(),
            decreases ranges@.len() - k, es.len() - cursor.index,
        {
            let range = &ranges[k];
            let ghost before = pieces@;
            let ghost from = cursor.index as int;
            cursor = self.piece_cursor(range.start, cursor);
            let ghost i = cursor.index as int;
            proof {
                assert(es[i].wf());
                lemma_excerpts_text_step(es, i);
                lemma_excerpts_text_split(es, i + 1);
                lemma_summary_sound(es[i].bytes());
                lemma_summary_sound(excerpts_text(es.take(i + 1)));
            }
            let end: usize = self.cursor_end(&cursor).len;
            let content_end: usize = cursor.start.len + self.excerpts[cursor.index].text_summary.len;
            let piece = Piece {
                index: cursor.index,
                start: if range.start < cursor.start.len {
                    cursor.start.len
                } else {
                    range.start
                },
                end: if range.end > content_end {
                    content_end
                } else {
                    range.end
                },
            };
            pieces.push(piece);
            assert(piece == piece_of(es, i, *range));
            if range.end > end {
                assert(pieces@ + pieces_from(es, ranges@, i + 1, k as int) =~= before
                    + pieces_from(es, ranges@, from, k as int));
                proof {
                    assert(es.take(es.len() as int) =~= es);
                }
                self.advance(&mut cursor);
            } else {
                assert(pieces@ + pieces_from(es, ranges@, i, k + 1) =~= before + pieces_from(
                    es,
                    ranges@,
                    from,
                    k as int,
                ));
                k = k + 1;
            }
        }
        assert(pieces@ + Seq::<Piece>::empty() =~= pieces@);
        pieces
    }

    fn ranges_to_offsets<T: ToOffset>(&self, ranges: &Vec<Range<T>>) -> (r: Vec<Range<usize>>)
        requires
            self.wf(),
            self.can_split(ranges@),
        ensures
            r@ == offset_ranges(ranges@, *self),
            forall|k: int|
                0 <= k < r@.len() ==> (#[trigger] r@[k]).start <= self.bytes().len() && r@[k].end
                    <= self.bytes().len(),
    {
        let ghost all = offset_ranges(ranges@, *self);
        let mut r: Vec<Range<usize>> = Vec::new();
        let mut k: usize = 0;
        while k < ranges.len()
            invariant
                self.wf(),
                self.can_split(ranges@),
                all == offset_ranges(ranges@, *self),
                k <= ranges@.len(),
                r@ == all.take(k as int),
                forall|k: int|
                    0 <= k < r@.len() ==> (#[trigger] r@[k]).start <= self.bytes().len()
                        && r@[k].end <= self.bytes().len(),
            decreases ranges@.len() - k,
        {
            assert(ranges@[k as int].start.is_position(*self));
            r.push(ranges[k].start.to_offset(self)..ranges[k].end.to_offset(self));
            assert(r@ =~= all.take(k + 1));
            k = k + 1;
        }
        assert(all.take(ranges@.len() as int) =~= all);
        r
    }

    /// Takes ranges apart, so that none spans more than one excerpt.
    pub fn split_ranges<T: ToOffset>(&self, ranges: &Vec<Range<T>>) -> (r: Vec<Range<Anchor>>)
        requires
            self.wf(),
            self.can_split(ranges@),
        ensures
            r@ == pieces_from(self.excerpts@, offset_ranges(ranges@, *self), 0, 0).map_values(
                |piece: Piece| anchored_piece(self.excerpts@, piece),
            ),
            forall|k: int|
                0 <= k < r@.len() ==> (#[trigger] r@[k]).start.excerpt_id == r@[k].end.excerpt_id,
    {
        let ghost es = self.excerpts@;
        let offsets = self.ranges_to_offsets(ranges);
        let pieces = self.pieces(&offsets);
        let ghost all = pieces@.map_values(|piece: Piece| anchored_piece(es, piece));
        let mut r: Vec<Range<Anchor>> = Vec::new();
        let mut k: usize = 0;
        while k < pieces.len()
            invariant
                self.wf(),
                es == self.excerpts@,
                all == pieces@.map_values(|piece: Piece| anchored_piece(es, piece)),
                forall|k: int|
                    0 <= k < pieces@.len() ==> (#[trigger] pieces@[k]).index < es.len(),
                k <= pieces@.len(),
                r@ == all.take(k as int),
            decreases pieces@.len() - k,
        {
            let piece = pieces[k];
            assert(pieces@[k as int].index < es.len());
            let cursor = self.cursor_at(piece.index);
            let view = self.view_at(&cursor);
            let excerpt = &self.excerpts[piece.index];
            let start: usize = view.map_offset_to_buffer(piece.start);
            let end: usize = view.map_offset_to_buffer(piece.end);
            r.push(
                Anchor {
                    buffer_id: Some(excerpt.buffer_id),
                    excerpt_id: excerpt.id,
                    text_anchor: excerpt.buffer.anchor_before(start),
                }..Anchor {
                    buffer_id: Some(excerpt.buffer_id),
                    excerpt_id: excerpt.id,
                    text_anchor: excerpt.buffer.anchor_after(end),
                },
            );
            assert(r@ =~= all.take(k + 1));
            k = k + 1;
        }
        assert(all.take(pieces@.len() as int) =~= all);
        r
    }

    /// The excerpts that ranges reach into, with the parts of the ranges, in their
    /// buffers.
    pub fn excerpts_in_ranges<T: ToOffset>(&self, ranges: &Vec<Range<T>>) -> (r: Vec<
        (ExcerptId, &BufferSnapshot, Range<usize>),
    >)
        requires
            self.wf(),
            self.can_split(ranges@),
        ensures
            ({
                let es = self.excerpts@;
                let pieces = pieces_from(es, offset_ranges(ranges@, *self), 0, 0);
                &&& r@.len() == pieces.len()
                &&& forall|k: int|
                    0 <= k < r@.len() ==> ({
                        let i = pieces[k].index as int;
                        &&& 0 <= i < es.len()
                        &&& (#[trigger] r@[k]).0 == es[i].id
                        &&& *r@[k].1 == *es[i].buffer
                        &&& r@[k].2.start == nearest_in_buffer(es, i, pieces[k].start as int)
                        &&& r@[k].2.end == nearest_in_buffer(es, i, pieces[k].end as int)
                    })
            }),
    {
        let ghost es = self.excerpts@;
        let offsets = self.ranges_to_offsets(ranges);
        let pieces = self.pieces(&offsets);
        let mut r: Vec<(ExcerptId, &BufferSnapshot, Range<usize>)> = Vec::new();
        let mut k: usize = 0;
        while k < pieces.len()
            invariant
                self.wf(),
                es == self.excerpts@,
                forall|k: int|
                    0 <= k < pieces@.len() ==> (#[trigger] pieces@[k]).index < es.len(),
                k <= pieces@.len(),
                r@.len() == k,
                forall|k: int|
                    0 <= k < r@.len() ==> ({
                        let i = pieces@[k].index as int;
                        &&& 0 <= i < es.len()
                        &&& (#[trigger] r@[k]).0 == es[i].id
                        &&& *r@[k].1 == *es[i].buffer
                        &&& r@[k].2.start == nearest_in_buffer(es, i, pieces@[k].start as int)
                        &&& r@[k].2.end == nearest_in_buffer(es, i, pieces@[k].end as int)
                    }),
            decreases pieces@.len() - k,
        {
            let piece = pieces[k];
            assert(pieces@[k as int].index < es.len());
            let cursor = self.cursor_at(piece.index);
            let view = self.view_at(&cursor);
            let excerpt = &self.excerpts[piece.index];
            r.push(
                (excerpt.id, &excerpt.buffer, view.map_range_to_buffer(piece.start..piece.end)),
            );
            k = k + 1;
        }
        r
    }
}

} // verus!
