//! What ranges of a multibuffer come to when they are taken apart by excerpt.

use std::ops::Range;
use vstd::prelude::*;

use crate::excerpt::{
    excerpt_start, excerpts_text, lemma_excerpt_position, lemma_excerpt_start_grows,
    lemma_excerpts_text_step, Excerpt,
};
use crate::snapshot::ranges::{
    anchored_piece, lemma_piece_index, piece_index, piece_of, pieces_from, Piece,
};
use crate::snapshot::{excerpts_wf, lemma_seek, seek_ends, seek_index, MultiBufferSnapshot};
use crate::text::{lemma_summary_sound, Bias};

verus! {

/// Whether ranges of a text follow one another, none reaching into the next.
pub open spec fn follow_one_another(ranges: Seq<Range<usize>>, len: int) -> bool {
    &&& forall|k: int|
        0 <= k < ranges.len() ==> (#[trigger] ranges[k]).start <= ranges[k].end <= len
    &&& forall|k: int, l: int|
        0 <= k < l < ranges.len() ==> (#[trigger] ranges[k]).end <= (#[trigger] ranges[l]).start
}

/// Whether the `i`-th excerpt shows what stands at an offset.
pub open spec fn shows_at(es: Seq<Excerpt>, i: int, offset: int) -> bool {
    &&& 0 <= i < es.len()
    &&& excerpt_start(es, i) <= offset < excerpt_start(es, i) + es[i].bytes().len()
}

/// Whether the `k`-th of the ranges holds what stands at an offset.
pub open spec fn range_holds(ranges: Seq<Range<usize>>, k: int, offset: int) -> bool {
    0 <= k < ranges.len() && ranges[k].start <= offset < ranges[k].end
}

/// Whether the `p`-th of the pieces holds what stands at an offset.
pub open spec fn piece_holds(pieces: Seq<Piece>, p: int, offset: int) -> bool {
    0 <= p < pieces.len() && pieces[p].start <= offset < pieces[p].end
}

/// Whether one of the ranges from the `k`-th on holds what stands at an offset.
pub open spec fn ranges_hold(ranges: Seq<Range<usize>>, k: int, offset: int) -> bool {
    exists|l: int| k <= l && #[trigger] range_holds(ranges, l, offset)
}

/// Whether one of the pieces holds what stands at an offset.
pub open spec fn pieces_hold(pieces: Seq<Piece>, offset: int) -> bool {
    exists|p: int| piece_holds(pieces, p, offset)
}

/// Whether a piece lies in what its excerpt shows.
pub open spec fn lies_within(es: Seq<Excerpt>, piece: Piece) -> bool {
    let i = piece.index as int;
    &&& 0 <= i < es.len()
    &&& excerpt_start(es, i) <= piece.start <= piece.end <= excerpt_start(es, i)
        + es[i].bytes().len()
}

/// Where a piece lies that starts at an offset.
proof fn lemma_piece_at(es: Seq<Excerpt>, start: usize, from: int)
    requires
        excerpts_wf(es),
        0 <= from < es.len(),
        start <= excerpts_text(es).len(),
    ensures
        ({
            let i = piece_index(es, start, from);
            &&& from <= i < es.len()
            &&& i == from || excerpt_start(es, i) <= start
            &&& start <= excerpt_start(es, i) + es[i].bytes().len()
            &&& excerpt_start(es, i) + es[i].bytes().len() <= excerpt_start(es, i + 1)
            &&& excerpt_start(es, i + 1) <= excerpt_start(es, i) + es[i].bytes().len() + 1
        }),
{
    let i = piece_index(es, start, from);
    let found = seek_index(es, start, Bias::Right, from);
    assert(es.take(es.len() as int) =~= es);
    lemma_piece_index(es, start, from);
    lemma_seek(es, start, Bias::Right, from);
    lemma_excerpts_text_step(es, i);
    assert(es[i].has_trailing_newline == (i < es.len() - 1));
    lemma_summary_sound(excerpts_text(es.take(i + 1)));
    lemma_summary_sound(excerpts_text(es.take(i)));
    if start >= excerpt_start(es, from + 1) {
        if start == excerpts_text(es).len() {
            lemma_excerpt_start_grows(es, i, es.len() as int);
            if found < es.len() {
                assert(seek_ends(es, start, Bias::Right, found));
                lemma_summary_sound(excerpts_text(es.take(found + 1)));
                lemma_excerpt_start_grows(es, found + 1, es.len() as int);
            }
        } else if i > from {
            assert(!seek_ends(es, start, Bias::Right, i - 1));
            assert(seek_ends(es, start, Bias::Right, i));
        }
    }
}

/// The pieces of ranges lie in the excerpts and follow one another.
#[verifier::rlimit(50)]
proof fn lemma_pieces_follow(es: Seq<Excerpt>, ranges: Seq<Range<usize>>, from: int, k: int)
    requires
        excerpts_wf(es),
        es.len() <= usize::MAX,
        excerpts_text(es).len() <= usize::MAX,
        follow_one_another(ranges, excerpts_text(es).len() as int),
        0 <= from < es.len(),
        0 <= k <= ranges.len(),
        k < ranges.len() ==> excerpt_start(es, from) <= ranges[k].end,
    ensures
        ({
            let pieces = pieces_from(es, ranges, from, k);
            &&& forall|p: int|
                0 <= p < pieces.len() ==> {
                    &&& lies_within(es, #[trigger] pieces[p])
                    &&& excerpt_start(es, from) <= pieces[p].start
                    &&& ranges[k].start <= pieces[p].start
                }
            &&& forall|p: int, q: int|
                0 <= p < q < pieces.len() ==> (#[trigger] pieces[p]).end <= (
                #[trigger] pieces[q]).start
        }),
    decreases ranges.len() - k, es.len() - from,
{
    let pieces = pieces_from(es, ranges, from, k);
    if k < ranges.len() {
        let range = ranges[k];
        assert(range.start <= range.end);
        let i = piece_index(es, range.start, from);
        lemma_piece_at(es, range.start, from);
        lemma_excerpt_start_grows(es, from, i);
        lemma_excerpt_start_grows(es, i + 1, es.len() as int);
        assert(es.take(es.len() as int) =~= es);
        let piece = piece_of(es, i, range);
        assert(lies_within(es, piece));
        let rest = if range.end > excerpt_start(es, i + 1) {
            lemma_pieces_follow(es, ranges, i + 1, k);
            pieces_from(es, ranges, i + 1, k)
        } else {
            if k + 1 < ranges.len() {
                assert(range.end <= ranges[k + 1].start);
                assert(ranges[k + 1].start <= ranges[k + 1].end);
            }
            lemma_pieces_follow(es, ranges, i, k + 1);
            pieces_from(es, ranges, i, k + 1)
        };
        assert(pieces == seq![piece] + rest);
        assert forall|p: int| 0 <= p < pieces.len() implies {
            &&& lies_within(es, #[trigger] pieces[p])
            &&& excerpt_start(es, from) <= pieces[p].start
            &&& range.start <= pieces[p].start
        } by {
            if p > 0 {
                assert(pieces[p] == rest[p - 1]);
            }
        }
        assert forall|p: int, q: int| 0 <= p < q < pieces.len() implies (
        #[trigger] pieces[p]).end <= (#[trigger] pieces[q]).start by {
            assert(pieces[q] == rest[q - 1]);
            if p > 0 {
                assert(pieces[p] == rest[p - 1]);
            }
        }
    }
}

/// Of what excerpts show from the `from`-th on, the pieces hold what the ranges hold.
#[verifier::rlimit(50)]
proof fn lemma_pieces_hold(
    es: Seq<Excerpt>,
    ranges: Seq<Range<usize>>,
    from: int,
    k: int,
    x: int,
    offset: int,
)
    requires
        excerpts_wf(es),
        es.len() <= usize::MAX,
        excerpts_text(es).len() <= usize::MAX,
        follow_one_another(ranges, excerpts_text(es).len() as int),
        0 <= from < es.len(),
        0 <= k <= ranges.len(),
        k < ranges.len() ==> excerpt_start(es, from) <= ranges[k].end,
        shows_at(es, x, offset),
        excerpt_start(es, from) <= offset,
    ensures
        pieces_hold(pieces_from(es, ranges, from, k), offset) == ranges_hold(ranges, k, offset),
    decreases ranges.len() - k, es.len() - from,
{
    let pieces = pieces_from(es, ranges, from, k);
    if k < ranges.len() {
        let range = ranges[k];
        assert(range.start <= range.end);
        let i = piece_index(es, range.start, from);
        lemma_piece_at(es, range.start, from);
        lemma_excerpt_start_grows(es, from, i);
        lemma_excerpt_start_grows(es, i + 1, es.len() as int);
        assert(es.take(es.len() as int) =~= es);
        let piece = piece_of(es, i, range);
        let goes_on = range.end > excerpt_start(es, i + 1);
        let rest = if goes_on {
            pieces_from(es, ranges, i + 1, k)
        } else {
            pieces_from(es, ranges, i, k + 1)
        };
        assert(pieces == seq![piece] + rest);
        if x < i {
            lemma_excerpt_start_grows(es, x + 1, i);
        }
        if x > i {
            lemma_excerpt_start_grows(es, i + 1, x);
        }
        lemma_excerpts_text_step(es, x);
        if !goes_on && k + 1 < ranges.len() {
            assert(range.end <= ranges[k + 1].start);
            assert(ranges[k + 1].start <= ranges[k + 1].end);
        }
        if goes_on {
            lemma_pieces_follow(es, ranges, i + 1, k);
            if excerpt_start(es, i + 1) <= offset {
                lemma_pieces_hold(es, ranges, i + 1, k, x, offset);
            }
        } else {
            lemma_pieces_follow(es, ranges, i, k + 1);
            if excerpt_start(es, i) <= offset {
                lemma_pieces_hold(es, ranges, i, k + 1, x, offset);
            }
        }
        if pieces_hold(pieces, offset) {
            let p = choose|p: int| piece_holds(pieces, p, offset);
            if p == 0 {
                assert(range_holds(ranges, k, offset));
            } else {
                assert(rest[p - 1] == pieces[p]);
                assert(piece_holds(rest, p - 1, offset));
                let l = choose|l: int|
                    (if goes_on {
                        k
                    } else {
                        k + 1
                    }) <= l && #[trigger] range_holds(ranges, l, offset);
                assert(range_holds(ranges, l, offset));
            }
        }
        if ranges_hold(ranges, k, offset) {
            let l = choose|l: int| k <= l && #[trigger] range_holds(ranges, l, offset);
            if l > k {
                assert(range.end <= ranges[l].start);
            }
            if piece.start <= offset < piece.end {
                assert(piece_holds(pieces, 0, offset));
            } else {
                assert(range_holds(ranges, l, offset));
                assert(pieces_hold(rest, offset));
                let p = choose|p: int| piece_holds(rest, p, offset);
                assert(pieces[p + 1] == rest[p]);
                assert(piece_holds(pieces, p + 1, offset));
            }
        }
    }
}

impl MultiBufferSnapshot {
    /// The pieces that ranges are taken apart into, where the ranges follow one
    /// another: each lies in one excerpt, they follow one another, and they hold what
    /// the ranges hold of what the excerpts show, which is all but the line breaks
    /// between excerpts.
    pub proof fn lemma_pieces(&self, ranges: Seq<Range<usize>>)
        requires
            self.wf(),
            follow_one_another(ranges, self.bytes().len() as int),
        ensures
            ({
                let es = self.excerpts@;
                let pieces = pieces_from(es, ranges, 0, 0);
                &&& forall|p: int|
                    0 <= p < pieces.len() ==> lies_within(es, #[trigger] pieces[p])
                &&& forall|p: int, q: int|
                    0 <= p < q < pieces.len() ==> (#[trigger] pieces[p]).end <= (
                    #[trigger] pieces[q]).start
                &&& forall|i: int, offset: int| #[trigger]
                    shows_at(es, i, offset) ==> pieces_hold(pieces, offset) == ranges_hold(
                        ranges,
                        0,
                        offset,
                    )
            }),
    {
        let es = self.excerpts@;
        assert(es.take(0) =~= Seq::<Excerpt>::empty());
        assert(es.len() == self.excerpts.len());
        if es.len() > 0 {
            lemma_pieces_follow(es, ranges, 0, 0);
        }
        assert forall|i: int, offset: int| #[trigger] shows_at(es, i, offset) implies pieces_hold(
            pieces_from(es, ranges, 0, 0),
            offset,
        ) == ranges_hold(ranges, 0, offset) by {
            lemma_excerpt_start_grows(es, 0, i);
            lemma_pieces_hold(es, ranges, 0, 0, i, offset);
        }
    }

    /// The anchors that hold a piece lie at its ends.
    pub proof fn lemma_anchored_piece(&self, piece: Piece)
        requires
            self.wf(),
            lies_within(self.excerpts@, piece),
        ensures
            self.anchor_offset(anchored_piece(self.excerpts@, piece).start) == piece.start,
            self.anchor_offset(anchored_piece(self.excerpts@, piece).end) == piece.end,
    {
        let i = piece.index as int;
        self.lemma_excerpt_id(i);
        lemma_excerpt_position(self.excerpts@[i], 0);
    }
}

} // verus!
