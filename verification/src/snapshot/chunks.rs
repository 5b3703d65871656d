//! Reading the text of a multibuffer piece by piece.

use std::ops::Range;
use vstd::prelude::*;
use vstd::utf8::{encode_utf8, is_ascii_chars, is_ascii_chars_encode_utf8};

use crate::buffer::{lemma_string_boundaries, BufferSnapshot};
use crate::excerpt::{
    excerpt_start, excerpts_text, lemma_excerpts_text_split, lemma_excerpts_text_step,
    lemma_text_within, Excerpt,
};
use crate::position::ToOffset;
use crate::snapshot::convert::lemma_boundary_within;
use crate::snapshot::{excerpts_wf, lemma_seek_offset, seek_index, MultiBufferSnapshot};
use crate::text::{is_boundary, lemma_summary_sound, Bias, NEWLINE};

verus! {

/// The encoding of two texts, one after the other, is that of the whole.
pub proof fn lemma_encode_concat(a: Seq<char>, b: Seq<char>)
    ensures
        encode_utf8(a + b) == encode_utf8(a) + encode_utf8(b),
    decreases a.len(),
{
    if a.len() == 0 {
        assert(a + b =~= b);
        assert(encode_utf8(a) + encode_utf8(b) =~= encode_utf8(b));
    } else {
        lemma_encode_concat(a.drop_first(), b);
        assert((a + b).drop_first() =~= a.drop_first() + b);
        assert((a + b)[0] == a[0]);
        assert(encode_utf8(a + b) =~= encode_utf8(a) + encode_utf8(b));
    }
}

impl BufferSnapshot {
    /// The text between two places where characters start.
    pub fn slice(&self, start: usize, end: usize) -> (r: &str)
        requires
            self.wf(),
            start <= end,
            is_boundary(self.bytes(), start as int),
            is_boundary(self.bytes(), end as int),
        ensures
            encode_utf8(r@) == self.bytes().subrange(start as int, end as int),
    {
        proof {
            reveal(BufferSnapshot::bytes);
            lemma_string_boundaries(self.text@, start as int);
        }
        let (_, tail) = self.text.as_str().split_at(start);
        proof {
            let t = self.bytes();
            assert(encode_utf8(tail@) =~= t.subrange(start as int, t.len() as int));
            lemma_string_boundaries(tail@, end - start);
        }
        let (head, _) = tail.split_at(end - start);
        assert(encode_utf8(head@) =~= self.bytes().subrange(start as int, end as int));
        head
    }
}

/// The line break that follows an excerpt.
pub fn newline() -> (r: &'static str)
    ensures
        encode_utf8(r@) == seq![NEWLINE],
{
    proof {
        reveal_strlit("\n");
        assert(is_ascii_chars("\n"@));
        is_ascii_chars_encode_utf8("\n"@);
        assert("\n"@[0] as u8 == NEWLINE);
        assert(encode_utf8("\n"@) =~= seq![NEWLINE]);
    }
    "\n"
}

/// The pieces that a stretch of a multibuffer's text is made of, each from one
/// excerpt or a line break between two.
#[derive(Debug)]
pub struct MultiBufferChunks<'a> {
    pub snapshot: &'a MultiBufferSnapshot,
    /// The stretch that is still to be read.
    pub range: Range<usize>,
}

impl<'a> MultiBufferChunks<'a> {
    pub open spec fn wf(&self) -> bool {
        &&& self.snapshot.wf()
        &&& self.range.start <= self.range.end
        &&& is_boundary(self.snapshot.bytes(), self.range.start as int)
        &&& is_boundary(self.snapshot.bytes(), self.range.end as int)
    }

    /// The text that is still to be read.
    pub open spec fn remaining(&self) -> Seq<u8> {
        self.snapshot.bytes().subrange(self.range.start as int, self.range.end as int)
    }

    pub fn offset(&self) -> (r: usize)
        ensures
            r == self.range.start,
    {
        self.range.start
    }

    /// Reads another stretch from now on.
    pub fn seek(&mut self, new_range: Range<usize>)
        ensures
            final(self).snapshot == old(self).snapshot,
            final(self).range == new_range,
    {
        self.range = new_range;
    }

    /// The next piece.
    pub fn next(&mut self) -> (r: Option<&'a str>)
        requires
            old(self).wf(),
        ensures
            final(self).wf(),
            final(self).snapshot == old(self).snapshot,
            final(self).range.end == old(self).range.end,
            match r {
                Some(piece) => {
                    &&& encode_utf8(piece@).len() > 0
                    &&& final(self).range.start == old(self).range.start + encode_utf8(
                        piece@,
                    ).len()
                    &&& old(self).remaining() == encode_utf8(piece@) + final(self).remaining()
                },
                None => old(self).remaining().len() == 0 && *final(self) == *old(self),
            },
    {
        if self.range.start >= self.range.end {
            return None;
        }
        let start: usize = self.range.start;
        let end: usize = self.range.end;
        let snapshot: &'a MultiBufferSnapshot = self.snapshot;
        let piece = snapshot.piece_at(start, end);
        let next: usize = start + piece.len();
        self.range = next..end;
        proof {
            lemma_subrange_split(snapshot.bytes(), start as int, next as int, end as int);
        }
        Some(piece)
    }
}

proof fn lemma_subrange_split(t: Seq<u8>, a: int, b: int, c: int)
    requires
        0 <= a <= b <= c <= t.len(),
    ensures
        t.subrange(a, c) == t.subrange(a, b) + t.subrange(b, c),
{
    assert(t.subrange(a, c) =~= t.subrange(a, b) + t.subrange(b, c));
}

impl MultiBufferSnapshot {
    /// The text from `start` on, up to the end of what the excerpt there shows and
    /// at most to `end`, or the line break that follows the excerpt.
    fn piece_at(&self, start: usize, end: usize) -> (r: &str)
        requires
            self.wf(),
            start < end,
            is_boundary(self.bytes(), start as int),
            is_boundary(self.bytes(), end as int),
        ensures
            0 < encode_utf8(r@).len() <= end - start,
            encode_utf8(r@) == self.bytes().subrange(
                start as int,
                start + encode_utf8(r@).len(),
            ),
            is_boundary(self.bytes(), start + encode_utf8(r@).len()),
    {
        let ghost es = self.excerpts@;
        let cursor = self.seek(&start, Bias::Right);
        proof {
            lemma_piece_start(es, start);
        }
        let excerpt = &self.excerpts[cursor.index];
        let within: usize = start - cursor.start.len;
        let len: usize = excerpt.text_summary.len;
        if within < len {
            let to: usize = if end - cursor.start.len < len {
                end - cursor.start.len
            } else {
                len
            };
            let buffer_start: usize = excerpt.buffer_start_offset();
            proof {
                lemma_piece_inside(es, cursor.index as int, within as int, to as int);
            }
            excerpt.buffer.slice(buffer_start + within, buffer_start + to)
        } else {
            proof {
                lemma_piece_newline(es, cursor.index as int);
            }
            newline()
        }
    }
}

/// Where a piece that starts at `start` lies.
proof fn lemma_piece_start(es: Seq<Excerpt>, start: usize)
    requires
        excerpts_wf(es),
        start < excerpts_text(es).len(),
    ensures
        ({
            let i = seek_index(es, start, Bias::Right, 0);
            &&& 0 <= i < es.len()
            &&& es[i].wf()
            &&& excerpt_start(es, i) <= start
            &&& start - excerpt_start(es, i) <= es[i].bytes().len()
            &&& start - excerpt_start(es, i) == es[i].bytes().len()
                ==> es[i].has_trailing_newline
            &&& es[i].text_summary.len == es[i].bytes().len()
        }),
{
    let i = seek_index(es, start, Bias::Right, 0);
    lemma_seek_offset(es, start, Bias::Right);
    lemma_excerpts_text_step(es, i);
    lemma_summary_sound(es[i].bytes());
}

/// The part of an excerpt between two places lies in its buffer as it lies in
/// the text.
proof fn lemma_piece_inside(es: Seq<Excerpt>, i: int, a: int, b: int)
    requires
        excerpts_wf(es),
        0 <= i < es.len(),
        0 <= a <= b <= es[i].bytes().len(),
        is_boundary(excerpts_text(es), excerpt_start(es, i) + a),
        b < es[i].bytes().len() ==> is_boundary(excerpts_text(es), excerpt_start(es, i) + b),
    ensures
        is_boundary(es[i].buffer.bytes(), es[i].start() + a),
        is_boundary(es[i].buffer.bytes(), es[i].start() + b),
        is_boundary(excerpts_text(es), excerpt_start(es, i) + b),
        es[i].buffer.bytes().subrange(es[i].start() + a, es[i].start() + b) == excerpts_text(
            es,
        ).subrange(excerpt_start(es, i) + a, excerpt_start(es, i) + b),
{
    assert(es[i].wf());
    lemma_boundary_within(es, i, a);
    lemma_boundary_within(es, i, b);
    lemma_text_within(es, i, a, b);
    assert(es[i].text().subrange(a, b) =~= es[i].buffer.bytes().subrange(
        es[i].start() + a,
        es[i].start() + b,
    ));
}

/// The line break behind an excerpt.
proof fn lemma_piece_newline(es: Seq<Excerpt>, i: int)
    requires
        excerpts_wf(es),
        0 <= i < es.len(),
        es[i].has_trailing_newline,
    ensures
        ({
            let at = excerpt_start(es, i) + es[i].bytes().len();
            &&& excerpts_text(es).subrange(at, at + 1) == seq![NEWLINE]
            &&& is_boundary(excerpts_text(es), at + 1)
        }),
{
    let len = es[i].bytes().len() as int;
    lemma_text_within(es, i, len, len + 1);
    assert(es[i].text().subrange(len, len + 1) =~= seq![NEWLINE]);
    lemma_behind_newline(es, i);
    lemma_excerpts_text_step(es, i);
}

/// A character starts behind the line break that follows an excerpt.
proof fn lemma_behind_newline(es: Seq<Excerpt>, i: int)
    requires
        excerpts_wf(es),
        0 <= i < es.len(),
        es[i].has_trailing_newline,
    ensures
        is_boundary(excerpts_text(es), excerpt_start(es, i + 1)),
{
    assert(es[i].has_trailing_newline == (i < es.len() - 1));
    lemma_excerpts_text_split(es, i + 1);
    lemma_boundary_within(es, i + 1, 0);
    assert(es[i + 1].wf());
}

/// The bytes of pieces of text, one after the other.
pub open spec fn joined(pieces: Seq<&str>) -> Seq<u8>
    decreases pieces.len(),
{
    if pieces.len() == 0 {
        seq![]
    } else {
        joined(pieces.drop_last()) + encode_utf8(pieces.last()@)
    }
}

impl MultiBufferSnapshot {
    /// Whether a stretch of the text can be read: it ends no earlier than it
    /// starts, and characters start at both ends.
    pub open spec fn can_read<T: ToOffset>(&self, range: Range<T>) -> bool {
        &&& range.start.is_position(*self)
        &&& range.end.is_position(*self)
        &&& range.start.offset(*self) <= range.end.offset(*self)
        &&& is_boundary(self.bytes(), range.start.offset(*self))
        &&& is_boundary(self.bytes(), range.end.offset(*self))
    }

    /// The text of a range.
    pub open spec fn bytes_of<T: ToOffset>(&self, range: Range<T>) -> Seq<u8> {
        self.bytes().subrange(range.start.offset(*self), range.end.offset(*self))
    }

    /// The pieces of a stretch of the text.
    pub fn chunks<T: ToOffset>(&self, range: Range<T>) -> (r: MultiBufferChunks<'_>)
        requires
            self.wf(),
            self.can_read(range),
        ensures
            r.wf(),
            *r.snapshot == *self,
            r.range.start == range.start.offset(*self),
            r.range.end == range.end.offset(*self),
            r.remaining() == self.bytes_of(range),
    {
        let start: usize = range.start.to_offset(self);
        let end: usize = range.end.to_offset(self);
        MultiBufferChunks { snapshot: self, range: start..end }
    }

    /// The pieces of a stretch of the text, in order.
    pub fn text_for_range<T: ToOffset>(&self, range: Range<T>) -> (r: Vec<&str>)
        requires
            self.wf(),
            self.can_read(range),
        ensures
            joined(r@) == self.bytes_of(range),
            forall|k: int| 0 <= k < r@.len() ==> encode_utf8((#[trigger] r@[k])@).len() > 0,
    {
        let ghost text = self.bytes_of(range);
        let mut chunks = self.chunks(range);
        let mut pieces: Vec<&str> = Vec::new();
        let mut more: bool = true;
        assert(joined(pieces@) + chunks.remaining() =~= text);
        while more
            invariant
                chunks.wf(),
                joined(pieces@) + chunks.remaining() == text,
                forall|k: int|
                    0 <= k < pieces@.len() ==> encode_utf8((#[trigger] pieces@[k])@).len() > 0,
                !more ==> chunks.remaining().len() == 0,
            decreases chunks.remaining().len(), more as int,
        {
            let ghost before = pieces@;
            let ghost left = chunks.remaining();
            match chunks.next() {
                Some(piece) => {
                    pieces.push(piece);
                    proof {
                        assert(pieces@.drop_last() =~= before);
                        assert(joined(pieces@) + chunks.remaining() =~= joined(before) + left);
                    }
                },
                None => {
                    more = false;
                },
            }
        }
        assert(joined(pieces@) + chunks.remaining() =~= joined(pieces@));
        pieces
    }

    /// The text.
    pub fn text(&self) -> (r: String)
        requires
            self.wf(),
        ensures
            encode_utf8(r@) == self.bytes(),
    {
        let len: usize = self.len();
        let pieces = self.text_for_range(0..len);
        let mut text = String::new();
        let mut k: usize = 0;
        assert(pieces@.take(0) =~= Seq::<&str>::empty());
        assert(encode_utf8(text@) =~= joined(pieces@.take(0)));
        while k < pieces.len()
            invariant
                k <= pieces@.len(),
                encode_utf8(text@) == joined(pieces@.take(k as int)),
            decreases pieces@.len() - k,
        {
            proof {
                lemma_encode_concat(text@, pieces@[k as int]@);
                assert(pieces@.take(k + 1).drop_last() =~= pieces@.take(k as int));
            }
            text.append(pieces[k]);
            k = k + 1;
        }
        proof {
            assert(pieces@.take(pieces@.len() as int) =~= pieces@);
            assert(self.bytes().subrange(0, len as int) =~= self.bytes());
        }
        text
    }

    /// The characters from a position on.
    pub fn chars_at<T: ToOffset>(&self, position: T) -> (r: Vec<char>)
        requires
            self.wf(),
            position.is_position(*self),
            is_boundary(self.bytes(), position.offset(*self)),
        ensures
            encode_utf8(r@) == self.bytes().skip(position.offset(*self)),
    {
        let offset: usize = position.to_offset(self);
        let len: usize = self.len();
        let pieces = self.text_for_range(offset..len);
        let mut chars: Vec<char> = Vec::new();
        let mut k: usize = 0;
        assert(pieces@.take(0) =~= Seq::<&str>::empty());
        assert(encode_utf8(chars@) =~= joined(pieces@.take(0)));
        while k < pieces.len()
            invariant
                k <= pieces@.len(),
                encode_utf8(chars@) == joined(pieces@.take(k as int)),
            decreases pieces@.len() - k,
        {
            let ghost before = chars@;
            proof {
                lemma_encode_concat(chars@, pieces@[k as int]@);
                assert(pieces@.take(k + 1).drop_last() =~= pieces@.take(k as int));
            }
            push_chars(&mut chars, pieces[k]);
            k = k + 1;
        }
        proof {
            assert(pieces@.take(pieces@.len() as int) =~= pieces@);
            assert(self.bytes().subrange(offset as int, len as int) =~= self.bytes().skip(
                offset as int,
            ));
        }
        chars
    }

    /// The characters before a position, backwards.
    pub fn reversed_chars_at<T: ToOffset>(&self, position: T) -> (r: Vec<char>)
        requires
            self.wf(),
            position.is_position(*self),
            is_boundary(self.bytes(), position.offset(*self)),
        ensures
            encode_utf8(r@.reverse()) == self.bytes().take(position.offset(*self)),
    {
        let offset: usize = position.to_offset(self);
        let pieces = self.text_for_range(0..offset);
        let mut chars: Vec<char> = Vec::new();
        let mut k: usize = pieces.len();
        proof {
            assert(pieces@.skip(k as int) =~= Seq::<&str>::empty());
            assert(chars@.reverse() =~= Seq::<char>::empty());
            assert(encode_utf8(chars@.reverse()) =~= joined(pieces@.skip(k as int)));
        }
        while k > 0
            invariant
                k <= pieces@.len(),
                encode_utf8(chars@.reverse()) == joined(pieces@.skip(k as int)),
            decreases k,
        {
            k = k - 1;
            let ghost before = chars@;
            push_chars_reversed(&mut chars, pieces[k]);
            proof {
                lemma_reversed_step(pieces@, k as int, before, chars@);
            }
        }
        proof {
            assert(pieces@.skip(0) =~= pieces@);
            assert(self.bytes().subrange(0, offset as int) =~= self.bytes().take(
                offset as int,
            ));
        }
        chars
    }
}

/// The bytes of pieces, those of others following.
pub proof fn lemma_joined_concat(a: Seq<&str>, b: Seq<&str>)
    ensures
        joined(a + b) == joined(a) + joined(b),
    decreases b.len(),
{
    if b.len() == 0 {
        assert(a + b =~= a);
        assert(joined(a) + joined(b) =~= joined(a));
    } else {
        lemma_joined_concat(a, b.drop_last());
        assert((a + b).drop_last() =~= a + b.drop_last());
        assert((a + b).last() == b.last());
        assert(joined(a + b) =~= joined(a) + joined(b));
    }
}

proof fn lemma_reversed_step(pieces: Seq<&str>, k: int, before: Seq<char>, after: Seq<char>)
    requires
        0 <= k < pieces.len(),
        encode_utf8(before.reverse()) == joined(pieces.skip(k + 1)),
        after == before + pieces[k]@.reverse(),
    ensures
        encode_utf8(after.reverse()) == joined(pieces.skip(k)),
{
    let cs = pieces[k]@;
    assert(after.reverse() =~= cs + before.reverse());
    lemma_encode_concat(cs, before.reverse());
    assert(pieces.skip(k) =~= seq![pieces[k]] + pieces.skip(k + 1));
    lemma_joined_concat(seq![pieces[k]], pieces.skip(k + 1));
    assert(seq![pieces[k]].drop_last() =~= Seq::<&str>::empty());
    assert(joined(Seq::<&str>::empty()) =~= Seq::<u8>::empty());
    assert(seq![pieces[k]].last() == pieces[k]);
    assert(joined(seq![pieces[k]]) =~= encode_utf8(cs));
}

/// Appends the characters of a piece of text, backwards.
fn push_chars_reversed(chars: &mut Vec<char>, piece: &str)
    ensures
        final(chars)@ == old(chars)@ + piece@.reverse(),
{
    let ghost before = chars@;
    let mut piece_chars: Vec<char> = Vec::new();
    push_chars(&mut piece_chars, piece);
    let ghost cs = piece@;
    assert(piece_chars@ =~= cs);
    let mut n: usize = piece_chars.len();
    assert(before + cs.skip(n as int).reverse() =~= before);
    while n > 0
        invariant
            n <= cs.len(),
            cs == piece_chars@,
            chars@ == before + cs.skip(n as int).reverse(),
        decreases n,
    {
        n = n - 1;
        chars.push(piece_chars[n]);
        assert(chars@ =~= before + cs.skip(n as int).reverse());
    }
    assert(cs.skip(0) =~= cs);
}

/// Appends the characters of a piece of text.
fn push_chars(chars: &mut Vec<char>, piece: &str)
    ensures
        final(chars)@ == old(chars)@ + piece@,
{
    let ghost before = chars@;
    assert(before + piece@.take(0) =~= before);
    for c in iter: piece.chars()
        invariant
            iter.seq() == piece@,
            chars@ == before + piece@.take(iter.index()),
    {
        chars.push(c);
        assert(chars@ =~= before + piece@.take(iter.index() + 1));
    }
    assert(piece@.take(piece@.len() as int) =~= piece@);
}

} // verus!
