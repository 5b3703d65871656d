//! What holds of the text and its positions as a whole.

use vstd::prelude::*;

use crate::buffer::{clipped_offset, lemma_boundary_left, lemma_boundary_right};
use crate::excerpt::{
    excerpt_start, excerpts_text, lemma_excerpts_text_step, trailing_newline, Excerpt,
};
use crate::snapshot::convert::{
    lemma_boundary_within, lemma_summary_before, lemma_summary_within, lemma_text_starts_char,
    pos_in_buffer, pos_utf16_in_buffer, to_point, to_point_utf16,
};
use crate::snapshot::{
    excerpts_wf, lemma_excerpt_starts_row, lemma_seek_point, lemma_seek_point_utf16, seek_index,
    MultiBufferSnapshot,
};
use crate::text::{
    find, is_boundary, lemma_find_offset_utf16, lemma_find_point, lemma_find_point_utf16,
    lemma_positions_grow, lemma_summary_sound, offset_utf16_at, point_at, point_utf16_at, Bias,
    OffsetUtf16, NEWLINE,
};

verus! {

/// The texts that excerpts show, with a line break between each and the next.
pub open spec fn joined_by_newlines(es: Seq<Excerpt>) -> Seq<u8>
    decreases es.len(),
{
    if es.len() == 0 {
        seq![]
    } else if es.len() == 1 {
        es[0].bytes()
    } else {
        joined_by_newlines(es.drop_last()).push(NEWLINE) + es.last().bytes()
    }
}

/// Excerpts that all have a line break behind them.
proof fn lemma_joined(es: Seq<Excerpt>, n: int)
    requires
        excerpts_wf(es),
        0 < n <= es.len(),
    ensures
        excerpts_text(es.take(n)) == joined_by_newlines(es.take(n)) + trailing_newline(
            n < es.len(),
        ),
    decreases n,
{
    let head = es.take(n);
    let last = es[n - 1];
    assert(last.has_trailing_newline == (n < es.len()));
    assert(head.drop_last() =~= es.take(n - 1));
    assert(head.last() == last);
    if n > 1 {
        lemma_joined(es, n - 1);
        assert(excerpts_text(head) =~= joined_by_newlines(head) + trailing_newline(n < es.len()));
    } else {
        assert(es.take(0) =~= seq![]);
        assert(excerpts_text(head) == excerpts_text(es.take(0)) + last.text());
        assert(head[0] == last);
        assert(excerpts_text(head) =~= joined_by_newlines(head) + trailing_newline(n < es.len()));
    }
}

/// The text of a multibuffer is what its excerpts show, with a line break between
/// each and the next.
pub proof fn lemma_text_is_joined(snapshot: MultiBufferSnapshot)
    requires
        snapshot.wf(),
    ensures
        snapshot.bytes() == joined_by_newlines(snapshot.excerpts@),
{
    let es = snapshot.excerpts@;
    if es.len() > 0 {
        lemma_joined(es, es.len() as int);
        assert(es.take(es.len() as int) =~= es);
        assert(joined_by_newlines(es) + trailing_newline(false) =~= joined_by_newlines(es));
    }
}

/// The row and the column of an offset at which a character starts have that offset.
pub proof fn lemma_point_has_offset(snapshot: MultiBufferSnapshot, o: int)
    requires
        snapshot.wf(),
        0 <= o <= snapshot.bytes().len(),
        is_boundary(snapshot.bytes(), o),
    ensures
        to_point(point_at(snapshot.bytes(), o))@ == point_at(snapshot.bytes(), o),
        snapshot.point_fits(to_point(point_at(snapshot.bytes(), o))),
        snapshot.offset_of_point(to_point(point_at(snapshot.bytes(), o))) == o,
{
    let es = snapshot.excerpts@;
    let t = snapshot.bytes();
    let pos = point_at(t, o);
    let point = to_point(pos);
    lemma_summary_sound(t.take(o));
    let i = seek_index(es, point, Bias::Right, 0);
    lemma_seek_point(es, point, Bias::Right);
    lemma_summary_before(es, i);
    let start = excerpt_start(es, i);
    if o < start {
        lemma_positions_grow(t, o, start);
    }
    if i < es.len() {
        lemma_summary_before(es, i + 1);
        let next = excerpt_start(es, i + 1);
        if next < o {
            lemma_positions_grow(t, next, o);
        }
        lemma_excerpts_text_step(es, i);
        let e = es[i];
        let k = o - start;
        assert(e.wf());
        assert(k <= e.bytes().len());
        lemma_summary_within(es, i, k);
        lemma_excerpt_starts_row(es, i);
        lemma_boundary_within(es, i, k);
        assert(pos_in_buffer(es, i, point@) == point_at(e.buffer.bytes(), e.start() + k));
        lemma_summary_sound(e.buffer.bytes().take(e.start() + k));
        lemma_find_point(
            e.buffer.bytes(),
            to_point(pos_in_buffer(es, i, point@)),
            e.start() + k,
        );
    } else {
        assert(es.take(es.len() as int) =~= es);
    }
}

/// The row and the UTF-16 column of an offset at which a character starts have that
/// offset.
pub proof fn lemma_point_utf16_has_offset(snapshot: MultiBufferSnapshot, o: int)
    requires
        snapshot.wf(),
        0 <= o <= snapshot.bytes().len(),
        is_boundary(snapshot.bytes(), o),
    ensures
        to_point_utf16(point_utf16_at(snapshot.bytes(), o))@ == point_utf16_at(
            snapshot.bytes(),
            o,
        ),
        snapshot.point_utf16_fits(to_point_utf16(point_utf16_at(snapshot.bytes(), o))),
        snapshot.offset_of_point_utf16(to_point_utf16(point_utf16_at(snapshot.bytes(), o))) == o,
{
    let es = snapshot.excerpts@;
    let t = snapshot.bytes();
    let pos = point_utf16_at(t, o);
    let point = to_point_utf16(pos);
    lemma_summary_sound(t.take(o));
    lemma_text_starts_char(es);
    let i = seek_index(es, point, Bias::Right, 0);
    lemma_seek_point_utf16(es, point, Bias::Right);
    lemma_summary_before(es, i);
    let start = excerpt_start(es, i);
    if o < start {
        lemma_positions_grow(t, o, start);
    }
    if i < es.len() {
        lemma_summary_before(es, i + 1);
        let next = excerpt_start(es, i + 1);
        if next < o {
            lemma_positions_grow(t, next, o);
        }
        lemma_excerpts_text_step(es, i);
        let e = es[i];
        let k = o - start;
        assert(e.wf());
        assert(k <= e.bytes().len());
        lemma_summary_within(es, i, k);
        lemma_excerpt_starts_row(es, i);
        lemma_boundary_within(es, i, k);
        assert(pos_utf16_in_buffer(es, i, point@) == point_utf16_at(
            e.buffer.bytes(),
            e.start() + k,
        ));
        lemma_summary_sound(e.buffer.bytes().take(e.start() + k));
        e.buffer.lemma_starts_char();
        lemma_find_point_utf16(
            e.buffer.bytes(),
            to_point_utf16(pos_utf16_in_buffer(es, i, point@)),
            e.start() + k,
        );
    } else {
        assert(es.take(es.len() as int) =~= es);
    }
}

/// The UTF-16 offset of an offset at which a character starts has that offset.
pub proof fn lemma_offset_utf16_has_offset(snapshot: MultiBufferSnapshot, o: int)
    requires
        snapshot.wf(),
        0 <= o <= snapshot.bytes().len(),
        is_boundary(snapshot.bytes(), o),
    ensures
        find(
            snapshot.bytes(),
            OffsetUtf16(offset_utf16_at(snapshot.bytes(), o) as usize),
            0,
        ) == o,
{
    let t = snapshot.bytes();
    lemma_text_starts_char(snapshot.excerpts@);
    lemma_summary_sound(t.take(o));
    lemma_find_offset_utf16(t, OffsetUtf16(offset_utf16_at(t, o) as usize), o);
}

/// Clipping an offset moves it to the nearest start of a character in the direction
/// of the bias, and leaves the start of a character where it is.
pub proof fn lemma_clip_offset(t: Seq<u8>, o: int)
    requires
        0 <= o <= t.len(),
    ensures
        clipped_offset(t, o, Bias::Left) <= o <= clipped_offset(t, o, Bias::Right),
        is_boundary(t, clipped_offset(t, o, Bias::Left)),
        is_boundary(t, clipped_offset(t, o, Bias::Right)),
        forall|k: int|
            clipped_offset(t, o, Bias::Left) < k < clipped_offset(t, o, Bias::Right)
                ==> !#[trigger] is_boundary(t, k),
        is_boundary(t, o) ==> clipped_offset(t, o, Bias::Left) == o && clipped_offset(
            t,
            o,
            Bias::Right,
        ) == o,
{
    lemma_boundary_left(t, o);
    lemma_boundary_right(t, o);
}

/// Clipping twice is clipping once.
pub proof fn lemma_clip_offset_twice(t: Seq<u8>, o: int, bias: Bias, again: Bias)
    requires
        0 <= o,
    ensures
        clipped_offset(t, clipped_offset(t, o, bias), again) == clipped_offset(t, o, bias),
{
    if o <= t.len() {
        lemma_clip_offset(t, o);
        lemma_clip_offset(t, clipped_offset(t, o, bias));
    }
}

} // verus!
