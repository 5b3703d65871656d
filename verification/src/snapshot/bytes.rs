//! Reading the bytes of a multibuffer, forwards and backwards.

use std::ops::Range;
use vstd::prelude::*;
use vstd::slice::slice_subrange;
use vstd::utf8::encode_utf8;

use crate::buffer::clipped_offset;
use crate::excerpt::{lemma_excerpts_text_step, lemma_text_within, Excerpt};
use crate::position::ToOffset;
use crate::snapshot::chunks::newline;
use crate::snapshot::{lemma_seek_offset, MultiBufferSnapshot};
use crate::text::{lemma_summary_sound, Bias};

verus! {

/// The bytes of a stretch of a multibuffer's text, piece by piece.
#[derive(Debug)]
pub struct MultiBufferBytes<'a> {
    pub snapshot: &'a MultiBufferSnapshot,
    /// The stretch that is still to be read.
    pub range: Range<usize>,
    /// The next piece of it.
    pub chunk: &'a [u8],
}

/// The bytes of a stretch of a multibuffer's text, piece by piece and backwards.
#[derive(Debug)]
pub struct ReversedMultiBufferBytes<'a> {
    pub snapshot: &'a MultiBufferSnapshot,
    /// The stretch that is still to be read.
    pub range: Range<usize>,
    /// The last piece of it.
    pub chunk: &'a [u8],
}

impl Excerpt {
    /// The bytes between two places of the excerpt's text, as far as they come
    /// from the buffer; behind the buffer's, the line break.
    fn bytes_between(&self, from: usize, to: usize) -> (r: &[u8])
        requires
            self.wf(),
            from < to <= self.text().len(),
            from < self.bytes().len() ==> to <= self.bytes().len(),
        ensures
            r@ == self.text().subrange(from as int, to as int),
    {
        proof {
            lemma_summary_sound(self.bytes());
        }
        if from < self.text_summary.len {
            let start: usize = self.buffer_start_offset();
            let bytes = slice_subrange(self.buffer.text_bytes(), start + from, start + to);
            assert(bytes@ =~= self.text().subrange(from as int, to as int));
            bytes
        } else {
            let bytes = newline().as_bytes();
            assert(bytes@ =~= self.text().subrange(from as int, to as int));
            bytes
        }
    }
}

/// No bytes.
fn no_bytes() -> (r: &'static [u8])
    ensures
        r@.len() == 0,
{
    slice_subrange(newline().as_bytes(), 0, 0)
}

impl MultiBufferSnapshot {
    /// The bytes from `start` on, up to the end of what the excerpt there shows and
    /// at most to `end`, or the line break that follows the excerpt.
    fn bytes_at(&self, start: usize, end: usize) -> (r: &[u8])
        requires
            self.wf(),
            start <= end <= self.bytes().len(),
        ensures
            r@.len() <= end - start,
            r@ == self.bytes().subrange(start as int, start + r@.len()),
            start < end ==> r@.len() > 0,
    {
        if start >= end {
            let r = no_bytes();
            assert(r@ =~= self.bytes().subrange(start as int, start as int));
            return r;
        }
        let ghost es = self.excerpts@;
        let cursor = self.seek(&start, Bias::Right);
        proof {
            let i = cursor.index as int;
            lemma_seek_offset(es, start, Bias::Right);
            lemma_excerpts_text_step(es, i);
            lemma_summary_sound(es[i].bytes());
            assert(es[i].wf());
        }
        let excerpt = &self.excerpts[cursor.index];
        let within: usize = start - cursor.start.len;
        let len: usize = excerpt.text_summary.len;
        let limit: usize = if within < len {
            len
        } else {
            within + 1
        };
        let to: usize = if end - cursor.start.len < limit {
            end - cursor.start.len
        } else {
            limit
        };
        proof {
            lemma_text_within(es, cursor.index as int, within as int, to as int);
        }
        excerpt.bytes_between(within, to)
    }

    /// The bytes before `end`, from the start of what the excerpt there shows and
    /// no further back than `start`, or the line break that follows the excerpt.
    fn bytes_before(&self, start: usize, end: usize) -> (r: &[u8])
        requires
            self.wf(),
            start <= end <= self.bytes().len(),
        ensures
            r@.len() <= end - start,
            r@ == self.bytes().subrange(end - r@.len(), end as int),
            start < end ==> r@.len() > 0,
    {
        if start >= end {
            let r = no_bytes();
            assert(r@ =~= self.bytes().subrange(end as int, end as int));
            return r;
        }
        let ghost es = self.excerpts@;
        let cursor = self.seek(&end, Bias::Left);
        proof {
            let i = cursor.index as int;
            lemma_seek_offset(es, end, Bias::Left);
            if i < es.len() {
                lemma_excerpts_text_step(es, i);
                lemma_summary_sound(es[i].bytes());
                assert(es[i].wf());
            }
        }
        let excerpt = &self.excerpts[cursor.index];
        let to: usize = end - cursor.start.len;
        let len: usize = excerpt.text_summary.len;
        let from: usize = if to > len {
            len
        } else if start > cursor.start.len {
            start - cursor.start.len
        } else {
            0
        };
        proof {
            lemma_text_within(es, cursor.index as int, from as int, to as int);
        }
        excerpt.bytes_between(from, to)
    }

    /// The bytes of a range.
    pub fn bytes_in_range<T: ToOffset>(&self, range: Range<T>) -> (r: MultiBufferBytes<'_>)
        requires
            self.wf(),
            range.start.is_position(*self),
            range.end.is_position(*self),
            range.start.offset(*self) <= range.end.offset(*self),
        ensures
            r.wf(),
            *r.snapshot == *self,
            r.range.start == range.start.offset(*self),
            r.range.end == range.end.offset(*self),
            r.remaining() == self.bytes_of(range),
    {
        let start: usize = range.start.to_offset(self);
        let end: usize = range.end.to_offset(self);
        MultiBufferBytes { snapshot: self, range: start..end, chunk: self.bytes_at(start, end) }
    }

    /// The bytes of a range, backwards.
    pub fn reversed_bytes_in_range<T: ToOffset>(&self, range: Range<T>) -> (r:
        ReversedMultiBufferBytes<'_>)
        requires
            self.wf(),
            range.start.is_position(*self),
            range.end.is_position(*self),
            range.start.offset(*self) <= range.end.offset(*self),
        ensures
            r.wf(),
            *r.snapshot == *self,
            r.range.start == range.start.offset(*self),
            r.range.end == range.end.offset(*self),
            r.remaining() == self.bytes_of(range),
    {
        let start: usize = range.start.to_offset(self);
        let end: usize = range.end.to_offset(self);
        ReversedMultiBufferBytes {
            snapshot: self,
            range: start..end,
            chunk: self.bytes_before(start, end),
        }
    }

    /// Whether a text stands at a position.
    pub fn contains_str_at<T: ToOffset>(&self, position: T, needle: &str) -> (r: bool)
        requires
            self.wf(),
            position.is_position(*self),
        ensures
            r == {
                let offset = position.offset(*self);
                let bytes = encode_utf8(needle@);
                &&& offset == clipped_offset(self.bytes(), offset, Bias::Left)
                &&& offset + bytes.len() <= self.bytes().len()
                &&& self.bytes().subrange(offset, offset + bytes.len()) == bytes
            },
    {
        let offset: usize = position.to_offset(self);
        if offset != self.clip_offset(offset, Bias::Left) {
            return false;
        }
        let bytes = needle.as_bytes();
        let len: usize = self.len();
        if bytes.len() > len - offset {
            return false;
        }
        let found = self.copy_bytes(offset, offset + bytes.len());
        let mut k: usize = 0;
        while k < bytes.len()
            invariant
                k <= bytes@.len(),
                found@.len() == bytes@.len(),
                bytes@ == encode_utf8(needle@),
                found@ == self.bytes().subrange(offset as int, offset + bytes@.len()),
                offset == position.offset(*self),
                forall|j: int| 0 <= j < k ==> #[trigger] found@[j] == bytes@[j],
            decreases bytes@.len() - k,
        {
            if found[k] != bytes[k] {
                assert(found@[k as int] != bytes@[k as int]);
                return false;
            }
            k = k + 1;
        }
        assert(found@ =~= bytes@);
        true
    }

    /// The bytes between two offsets.
    pub fn copy_bytes(&self, start: usize, end: usize) -> (r: Vec<u8>)
        requires
            self.wf(),
            start <= end <= self.bytes().len(),
        ensures
            r@ == self.bytes().subrange(start as int, end as int),
    {
        let mut r: Vec<u8> = Vec::new();
        let mut bytes = self.bytes_in_range(start..end);
        while bytes.range.start < bytes.range.end
            invariant
                bytes.wf(),
                *bytes.snapshot == *self,
                start <= bytes.range.start <= end,
                bytes.range.end == end,
                end <= self.bytes().len(),
                r@ == self.bytes().subrange(start as int, bytes.range.start as int),
            decreases end - bytes.range.start,
        {
            let ghost before = bytes.range.start as int;
            if let Some(chunk) = bytes.next() {
                let ghost after = bytes.range.start as int;
                r.extend_from_slice(chunk);
                assert(r@ =~= self.bytes().subrange(start as int, after));
            }
        }
        r
    }
}

impl<'a> MultiBufferBytes<'a> {
    /// The bytes that are still to be read.
    pub open spec fn remaining(&self) -> Seq<u8> {
        self.snapshot.bytes().subrange(self.range.start as int, self.range.end as int)
    }

    pub open spec fn wf(&self) -> bool {
        &&& self.snapshot.wf()
        &&& self.range.start <= self.range.end <= self.snapshot.bytes().len()
        &&& self.chunk@.len() <= self.range.end - self.range.start
        &&& self.range.start < self.range.end ==> self.chunk@.len() > 0
        &&& self.chunk@ == self.snapshot.bytes().subrange(
            self.range.start as int,
            self.range.start + self.chunk@.len(),
        )
    }

    /// Leaves bytes of the next piece behind.
    pub fn consume(&mut self, len: usize)
        requires
            old(self).wf(),
            len <= old(self).chunk@.len(),
        ensures
            final(self).wf(),
            final(self).snapshot == old(self).snapshot,
            final(self).range.start == old(self).range.start + len,
            final(self).range.end == old(self).range.end,
            len < old(self).chunk@.len() ==> final(self).chunk@ == old(self).chunk@.skip(
                len as int,
            ),
    {
        let ghost before = *self;
        let start: usize = self.range.start + len;
        let end: usize = self.range.end;
        self.range = start..end;
        if len < self.chunk.len() {
            self.chunk = slice_subrange(self.chunk, len, self.chunk.len());
            assert(self.chunk@ =~= before.chunk@.skip(len as int));
            assert(self.chunk@ =~= self.snapshot.bytes().subrange(
                start as int,
                start + self.chunk@.len(),
            ));
        } else {
            let snapshot: &'a MultiBufferSnapshot = self.snapshot;
            self.chunk = snapshot.bytes_at(start, end);
        }
    }

    /// The next piece.
    pub fn next(&mut self) -> (r: Option<&'a [u8]>)
        requires
            old(self).wf(),
        ensures
            final(self).wf(),
            final(self).snapshot == old(self).snapshot,
            final(self).range.end == old(self).range.end,
            match r {
                Some(chunk) => {
                    &&& chunk@.len() > 0
                    &&& chunk@ == old(self).chunk@
                    &&& final(self).range.start == old(self).range.start + chunk@.len()
                    &&& old(self).remaining() == chunk@ + final(self).remaining()
                },
                None => old(self).remaining().len() == 0 && *final(self) == *old(self),
            },
    {
        let chunk: &'a [u8] = self.chunk;
        if chunk.len() == 0 {
            None
        } else {
            self.consume(chunk.len());
            assert(old(self).remaining() =~= chunk@ + self.remaining());
            Some(chunk)
        }
    }

    /// Reads at most `limit` bytes of the next piece.
    pub fn read(&mut self, limit: usize) -> (r: Vec<u8>)
        requires
            old(self).wf(),
        ensures
            final(self).wf(),
            final(self).snapshot == old(self).snapshot,
            final(self).range.end == old(self).range.end,
            r@.len() == if limit < old(self).chunk@.len() {
                limit as nat
            } else {
                old(self).chunk@.len()
            },
            old(self).remaining() == r@ + final(self).remaining(),
    {
        let len: usize = if limit < self.chunk.len() {
            limit
        } else {
            self.chunk.len()
        };
        let mut r: Vec<u8> = Vec::new();
        r.extend_from_slice(slice_subrange(self.chunk, 0, len));
        assert(r@ =~= self.chunk@.take(len as int));
        if len > 0 {
            self.consume(len);
        }
        assert(old(self).remaining() =~= r@ + self.remaining());
        r
    }
}

impl<'a> ReversedMultiBufferBytes<'a> {
    /// The bytes that are still to be read.
    pub open spec fn remaining(&self) -> Seq<u8> {
        self.snapshot.bytes().subrange(self.range.start as int, self.range.end as int)
    }

    pub open spec fn wf(&self) -> bool {
        &&& self.snapshot.wf()
        &&& self.range.start <= self.range.end <= self.snapshot.bytes().len()
        &&& self.chunk@.len() <= self.range.end - self.range.start
        &&& self.range.start < self.range.end ==> self.chunk@.len() > 0
        &&& self.chunk@ == self.snapshot.bytes().subrange(
            self.range.end - self.chunk@.len(),
            self.range.end as int,
        )
    }

    /// Leaves bytes at the end of the last piece behind.
    pub fn consume(&mut self, len: usize)
        requires
            old(self).wf(),
            len <= old(self).chunk@.len(),
        ensures
            final(self).wf(),
            final(self).snapshot == old(self).snapshot,
            final(self).range.start == old(self).range.start,
            final(self).range.end == old(self).range.end - len,
            len < old(self).chunk@.len() ==> final(self).chunk@ == old(self).chunk@.take(
                old(self).chunk@.len() - len,
            ),
    {
        let ghost before = *self;
        let start: usize = self.range.start;
        let end: usize = self.range.end - len;
        self.range = start..end;
        if len < self.chunk.len() {
            self.chunk = slice_subrange(self.chunk, 0, self.chunk.len() - len);
            assert(self.chunk@ =~= before.chunk@.take(before.chunk@.len() - len));
            assert(self.chunk@ =~= self.snapshot.bytes().subrange(
                end - self.chunk@.len(),
                end as int,
            ));
        } else {
            let snapshot: &'a MultiBufferSnapshot = self.snapshot;
            self.chunk = snapshot.bytes_before(start, end);
        }
    }

    /// Reads as many bytes as the last piece holds, and at most `limit`, and
    /// leaves as many at its end behind. The bytes are those at the start of the
    /// piece, backwards; where `limit` leaves room for the whole piece, those are
    /// the last bytes that were still to be read.
    pub fn read(&mut self, limit: usize) -> (r: Vec<u8>)
        requires
            old(self).wf(),
        ensures
            final(self).wf(),
            final(self).snapshot == old(self).snapshot,
            final(self).range.start == old(self).range.start,
            r@.len() == if limit < old(self).chunk@.len() {
                limit as nat
            } else {
                old(self).chunk@.len()
            },
            r@ == old(self).chunk@.take(r@.len() as int).reverse(),
            final(self).range.end == old(self).range.end - r@.len(),
            limit >= old(self).chunk@.len() ==> old(self).remaining() == final(self).remaining()
                + r@.reverse(),
    {
        let len: usize = if limit < self.chunk.len() {
            limit
        } else {
            self.chunk.len()
        };
        let ghost chunk = self.chunk@;
        let mut r: Vec<u8> = Vec::new();
        let mut k: usize = len;
        assert(r@ =~= chunk.subrange(k as int, len as int).reverse());
        while k > 0
            invariant
                k <= len <= chunk.len(),
                chunk == self.chunk@,
                *self == *old(self),
                r@ == chunk.subrange(k as int, len as int).reverse(),
            decreases k,
        {
            k = k - 1;
            r.push(self.chunk[k]);
            assert(r@ =~= chunk.subrange(k as int, len as int).reverse());
        }
        assert(r@ =~= chunk.take(len as int).reverse());
        if len > 0 {
            self.consume(len);
        }
        proof {
            if limit >= chunk.len() {
                assert(r@.reverse() =~= chunk);
                assert(old(self).remaining() =~= self.remaining() + chunk);
            }
        }
        r
    }
}

} // verus!
