//! Where the pieces of a multibuffer's text come from.

use std::ops::Range;
use vstd::prelude::*;

use crate::buffer::BufferId;
use crate::excerpt::{
    excerpt_start, excerpts_text, lemma_excerpts_text_step, lemma_text_within, Excerpt, ExcerptId,
};
use crate::position::ToOffset;
use crate::snapshot::{excerpts_wf, lemma_seek_offset, seek_index, MultiBufferSnapshot};
use crate::text::{lemma_summary_sound, Bias, NEWLINE};

verus! {

/// Where a piece of the text comes from.
#[derive(Debug, PartialEq, Eq)]
pub enum PieceSource {
    /// An excerpt shows it, and it is this range of the excerpt's buffer.
    Buffer { excerpt_id: ExcerptId, buffer_id: BufferId, range: Range<usize> },
    /// It is the line break between two excerpts.
    Newline,
}

/// Where the piece of a stretch that starts at `start` ends.
pub open spec fn piece_end(es: Seq<Excerpt>, start: int, end: int) -> int {
    let i = seek_index(es, start as usize, Bias::Right, 0);
    let content_end = excerpt_start(es, i) + es[i].bytes().len();
    if start >= content_end {
        start + 1
    } else if end < content_end {
        end
    } else {
        content_end
    }
}

/// Where the piece of a stretch that starts at `start` comes from.
pub open spec fn source_at(es: Seq<Excerpt>, start: int, end: int) -> PieceSource {
    let i = seek_index(es, start as usize, Bias::Right, 0);
    let from = excerpt_start(es, i);
    if start >= from + es[i].bytes().len() {
        PieceSource::Newline
    } else {
        PieceSource::Buffer {
            excerpt_id: es[i].id,
            buffer_id: es[i].buffer_id,
            range: Range {
                start: (es[i].start() + start - from) as usize,
                end: (es[i].start() + piece_end(es, start, end) - from) as usize,
            },
        }
    }
}

/// What the piece of a stretch that starts at `start` holds.
pub open spec fn source_text(es: Seq<Excerpt>, start: int, end: int) -> Seq<u8> {
    match source_at(es, start, end) {
        PieceSource::Buffer { excerpt_id, buffer_id, range } => es[seek_index(
            es,
            start as usize,
            Bias::Right,
            0,
        )].buffer.bytes().subrange(range.start as int, range.end as int),
        PieceSource::Newline => seq![NEWLINE],
    }
}

/// Where the pieces of a stretch come from, in order.
pub open spec fn sources(es: Seq<Excerpt>, start: int, end: int) -> Seq<PieceSource>
    decreases end - start,
{
    if start >= end {
        seq![]
    } else {
        seq![source_at(es, start, end)] + sources(es, piece_end(es, start, end), end)
    }
}

/// What the pieces of a stretch hold, one after the other.
pub open spec fn sources_text(es: Seq<Excerpt>, start: int, end: int) -> Seq<u8>
    decreases end - start,
{
    if start >= end {
        seq![]
    } else {
        source_text(es, start, end) + sources_text(es, piece_end(es, start, end), end)
    }
}

/// A piece holds what stands in its place in the text.
proof fn lemma_source_text(es: Seq<Excerpt>, start: int, end: int)
    requires
        excerpts_wf(es),
        0 <= start < end <= excerpts_text(es).len() <= usize::MAX,
    ensures
        start < piece_end(es, start, end) <= end,
        source_text(es, start, end) == excerpts_text(es).subrange(
            start,
            piece_end(es, start, end),
        ),
{
    let i = seek_index(es, start as usize, Bias::Right, 0);
    lemma_seek_offset(es, start as usize, Bias::Right);
    let from = excerpt_start(es, i);
    let to = piece_end(es, start, end);
    let e = es[i];
    assert(e.wf());
    assert(e.buffer.wf());
    lemma_excerpts_text_step(es, i);
    lemma_text_within(es, i, start - from, to - from);
    if start < from + e.bytes().len() {
        assert(e.text().subrange(start - from, to - from) =~= e.buffer.bytes().subrange(
            e.start() + start - from,
            e.start() + to - from,
        ));
    } else {
        assert(e.text().subrange(start - from, to - from) =~= seq![NEWLINE]);
    }
}

impl MultiBufferSnapshot {
    /// The pieces of a stretch hold the text of the stretch.
    pub proof fn lemma_sources_text(&self, start: int, end: int)
        requires
            self.wf(),
            0 <= start <= end <= self.bytes().len(),
        ensures
            sources_text(self.excerpts@, start, end) == self.bytes().subrange(start, end),
        decreases end - start,
    {
        let t = self.bytes();
        if start < end {
            let next = piece_end(self.excerpts@, start, end);
            lemma_source_text(self.excerpts@, start, end);
            self.lemma_sources_text(next, end);
            assert(t.subrange(start, end) =~= t.subrange(start, next) + t.subrange(next, end));
        } else {
            assert(t.subrange(start, end) =~= seq![]);
        }
    }

    /// Where the pieces of a range come from: which range of which buffer to read,
    /// or a line break between excerpts.
    pub fn chunk_sources<T: ToOffset>(&self, range: Range<T>) -> (r: Vec<PieceSource>)
        requires
            self.wf(),
            range.start.is_position(*self),
            range.end.is_position(*self),
        ensures
            r@ == sources(
                self.excerpts@,
                range.start.offset(*self),
                range.end.offset(*self),
            ),
    {
        let mut start: usize = range.start.to_offset(self);
        let end: usize = range.end.to_offset(self);
        let ghost es = self.excerpts@;
        let ghost all = sources(es, start as int, end as int);
        let mut r: Vec<PieceSource> = Vec::new();
        assert(r@ + all =~= all);
        while start < end
            invariant
                self.wf(),
                es == self.excerpts@,
                end <= self.bytes().len(),
                r@ + sources(es, start as int, end as int) == all,
            decreases end - start,
        {
            let ghost before = r@;
            let cursor = self.seek(&start, Bias::Right);
            proof {
                lemma_seek_offset(es, start, Bias::Right);
                lemma_source_text(es, start as int, end as int);
                assert(es[cursor.index as int].wf());
                lemma_summary_sound(es[cursor.index as int].bytes());
            }
            let excerpt = &self.excerpts[cursor.index];
            let content_end: usize = cursor.start.len + excerpt.text_summary.len;
            let next: usize = if start >= content_end {
                r.push(PieceSource::Newline);
                start + 1
            } else {
                let to: usize = if end < content_end {
                    end
                } else {
                    content_end
                };
                let from: usize = excerpt.buffer_start_offset();
                r.push(
                    PieceSource::Buffer {
                        excerpt_id: excerpt.id,
                        buffer_id: excerpt.buffer_id,
                        range: from + (start - cursor.start.len)..from + (to - cursor.start.len),
                    },
                );
                to
            };
            assert(r@ =~= before.push(source_at(es, start as int, end as int)));
            assert(r@ + sources(es, next as int, end as int) =~= before + sources(
                es,
                start as int,
                end as int,
            ));
            start = next;
        }
        assert(r@ + Seq::<PieceSource>::empty() =~= r@);
        r
    }
}

impl MultiBufferSnapshot {
    /// A piece of a stretch comes from the excerpt that shows its start, and from the buffer
    /// of that excerpt, which holds the text of the piece in the range that is named; or it
    /// is the line break behind the excerpt. It ends with the stretch, or where what the
    /// excerpt shows ends.
    pub proof fn lemma_source(&self, start: int, end: int) -> (i: int)
        requires
            self.wf(),
            0 <= start < end <= self.bytes().len(),
        ensures
            ({
                let es = self.excerpts@;
                let to = piece_end(es, start, end);
                let content_end = excerpt_start(es, i) + es[i].bytes().len();
                &&& 0 <= i < es.len()
                &&& excerpt_start(es, i) <= start <= content_end
                &&& start < content_end ==> to == if end <= content_end {
                    end
                } else {
                    content_end
                }
                &&& start == content_end ==> to == start + 1
                &&& match source_at(es, start, end) {
                    PieceSource::Buffer { excerpt_id, buffer_id, range } => {
                        &&& start < content_end
                        &&& excerpt_id == es[i].id
                        &&& buffer_id == es[i].buffer_id
                        &&& range.start - es[i].start() == start - excerpt_start(es, i)
                        &&& range.end - es[i].start() == to - excerpt_start(es, i)
                        &&& es[i].buffer.bytes().subrange(range.start as int, range.end as int)
                            == self.bytes().subrange(start, to)
                    },
                    PieceSource::Newline => start == content_end && self.bytes()[start] == NEWLINE,
                }
            }),
    {
        let es = self.excerpts@;
        let i = seek_index(es, start as usize, Bias::Right, 0);
        lemma_seek_offset(es, start as usize, Bias::Right);
        lemma_source_text(es, start, end);
        let e = es[i];
        assert(e.wf());
        assert(e.buffer.wf());
        lemma_excerpts_text_step(es, i);
        let to = piece_end(es, start, end);
        if start == excerpt_start(es, i) + e.bytes().len() {
            assert(self.bytes().subrange(start, to)[0] == self.bytes()[start]);
        }
        i
    }
}

} // verus!
