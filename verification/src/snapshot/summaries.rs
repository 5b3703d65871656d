//! Measuring stretches of a multibuffer.

use std::ops::Range;
use vstd::prelude::*;

use crate::excerpt::{
    excerpt_start, excerpts_text, lemma_excerpts_text_split, lemma_excerpts_text_step,
    lemma_text_within, Excerpt,
};
use crate::position::ToOffset;
use crate::snapshot::convert::{pos_in_buffer, to_point};
use crate::snapshot::{lemma_seek_offset, lemma_seek_point, MultiBufferSnapshot};
use crate::text::{
    find, lemma_find_point_from, lemma_summarize_concat, lemma_summary_sound, summarize, Bias,
    Point, Summary, TextDimension, TextSummary, MAX_TEXT_LEN, NEWLINE,
};

verus! {

/// The summary of a text with a piece behind it.
proof fn lemma_summary_extends(t: Seq<u8>, a: int, b: int, c: int)
    requires
        0 <= a <= b <= c <= t.len(),
    ensures
        summarize(t.subrange(a, c)) == summarize(t.subrange(a, b)).join(
            summarize(t.subrange(b, c)),
        ),
{
    lemma_summarize_concat(t.subrange(a, b), t.subrange(b, c));
    assert(t.subrange(a, c) =~= t.subrange(a, b) + t.subrange(b, c));
}

impl Excerpt {
    /// What the excerpt's text measures between two places.
    fn summary_between(&self, from: usize, to: usize) -> (r: TextSummary)
        requires
            self.wf(),
            from <= to <= self.text().len(),
            from <= self.bytes().len(),
            self.text().len() <= MAX_TEXT_LEN,
        ensures
            r@ == summarize(self.text().subrange(from as int, to as int)),
            r@.sound(),
            r.len == to - from,
    {
        proof {
            lemma_summary_sound(self.bytes());
            lemma_summary_sound(self.text().subrange(from as int, to as int));
        }
        let len: usize = self.text_summary.len;
        let content_end: usize = if to < len {
            to
        } else {
            len
        };
        let start: usize = self.buffer_start_offset();
        let mut summary = self.buffer.text_summary_for_range(start + from..start + content_end);
        proof {
            assert(self.buffer.bytes().subrange(start + from, start + content_end)
                =~= self.text().subrange(from as int, content_end as int));
            lemma_summary_sound(self.text().subrange(from as int, content_end as int));
        }
        if to > len {
            summary.push_byte(NEWLINE);
            proof {
                reveal(summarize);
                let whole = self.text().subrange(from as int, to as int);
                assert(whole.drop_last() =~= self.text().subrange(
                    from as int,
                    content_end as int,
                ));
                assert(whole.last() == NEWLINE);
            }
        }
        summary
    }
}

impl MultiBufferSnapshot {
    /// What the text of a range measures.
    pub fn text_summary_for_range<D: TextDimension, O: ToOffset>(&self, range: Range<O>) -> (r: D)
        requires
            self.wf(),
            range.start.is_position(*self),
            range.end.is_position(*self),
            range.start.offset(*self) <= range.end.offset(*self),
        ensures
            r.measures(summarize(self.bytes_of(range))),
    {
        let start: usize = range.start.to_offset(self);
        let end: usize = range.end.to_offset(self);
        let ghost es = self.excerpts@;
        let ghost t = self.bytes();
        let mut cursor = self.seek(&start, Bias::Right);
        let mut summary = TextSummary::zero();
        let mut at: usize = start;
        proof {
            reveal(summarize);
            assert(t.subrange(start as int, start as int) =~= Seq::<u8>::empty());
            lemma_seek_offset(es, start, Bias::Right);
            lemma_summary_sound(t.subrange(start as int, start as int));
            if start < end {
                let i = cursor.index as int;
                lemma_excerpts_text_step(es, i);
            }
        }
        while cursor.index < self.excerpts.len() && at < end
            invariant
                self.wf(),
                es == self.excerpts@,
                t == self.bytes(),
                cursor.wf(es),
                start <= at <= end <= t.len(),
                at < end ==> {
                    &&& cursor.index < es.len()
                    &&& 0 <= at - cursor.start.len <= es[cursor.index as int].bytes().len()
                },
                summary@ == summarize(t.subrange(start as int, at as int)),
                summary@.sound(),
                summary.len == at - start,
            decreases es.len() - cursor.index,
        {
            let ghost i = cursor.index as int;
            let excerpt = &self.excerpts[cursor.index];
            proof {
                assert(es[i].wf());
                lemma_excerpts_text_step(es, i);
                lemma_excerpts_text_split(es, i + 1);
                lemma_summary_sound(es[i].bytes());
            }
            let from: usize = at - cursor.start.len;
            let newline: usize = if excerpt.has_trailing_newline {
                1
            } else {
                0
            };
            let len: usize = excerpt.text_summary.len + newline;
            let to: usize = if end - cursor.start.len < len {
                end - cursor.start.len
            } else {
                len
            };
            let piece = excerpt.summary_between(from, to);
            let next: usize = cursor.start.len + to;
            proof {
                lemma_text_within(es, i, from as int, to as int);
                lemma_summary_extends(t, start as int, at as int, next as int);
                lemma_summary_sound(t.subrange(start as int, next as int));
            }
            summary.append(&piece);
            self.advance(&mut cursor);
            at = next;
            proof {
                if at < end {
                    assert(at == excerpt_start(es, i + 1));
                    if i + 1 == es.len() {
                        assert(es.take(es.len() as int) =~= es);
                    }
                }
            }
        }
        D::from_text_summary(&summary)
    }
}

impl MultiBufferSnapshot {
    /// What two stretches measure of which one follows the other adds up to what
    /// they measure together, whatever it is measured in.
    pub proof fn lemma_summaries_add_up<D: TextDimension>(
        &self,
        a: int,
        b: int,
        c: int,
        first: D,
        second: D,
        both: D,
    )
        requires
            self.wf(),
            0 <= a <= b <= c <= self.bytes().len(),
            first.measures(summarize(self.bytes().subrange(a, b))),
            second.measures(summarize(self.bytes().subrange(b, c))),
            both.measures(summarize(self.bytes().subrange(a, c))),
        ensures
            both == first.followed_by(second),
    {
        let t = self.bytes();
        lemma_summary_extends(t, a, b, c);
        D::lemma_followed_by(
            first,
            second,
            both,
            summarize(t.subrange(a, b)),
            summarize(t.subrange(b, c)),
        );
    }

    /// A stretch is as long as its ends are apart, and what the stretch of all the
    /// text measures is what the text measures.
    pub proof fn lemma_summary_of_stretch(
        &self,
        a: int,
        b: int,
        len: usize,
        whole: TextSummary,
        text_summary: TextSummary,
    )
        requires
            self.wf(),
            0 <= a <= b <= self.bytes().len(),
            len.measures(summarize(self.bytes().subrange(a, b))),
            whole.measures(summarize(self.bytes().subrange(0, self.bytes().len() as int))),
            text_summary@ == summarize(self.bytes()),
        ensures
            len == b - a,
            whole == text_summary,
    {
        lemma_summary_sound(self.bytes().subrange(a, b));
        assert(self.bytes().subrange(0, self.bytes().len() as int) =~= self.bytes());
    }
}

impl MultiBufferSnapshot {
    /// What stands before a point measures: what stands before the excerpt that
    /// shows it, and what its buffer holds from the excerpt's start to the point.
    pub open spec fn summary_before_point(&self, point: Point) -> Summary {
        let es = self.excerpts@;
        let i = self.excerpt_at_point(point);
        if i < es.len() {
            let buffer = es[i].buffer.bytes();
            let found = find(buffer, to_point(pos_in_buffer(es, i, point@)), 0);
            summarize(excerpts_text(es.take(i))).join(
                summarize(buffer.subrange(es[i].start(), found)),
            )
        } else {
            summarize(self.bytes())
        }
    }

    /// What stands before each of some points measures.
    pub fn dimensions_from_points<D: TextDimension>(&self, points: &Vec<Point>) -> (r: Vec<D>)
        requires
            self.wf(),
            forall|k: int|
                0 <= k < points@.len() ==> self.point_fits(#[trigger] points@[k])
                    && self.offset_of_point(points@[k]) <= MAX_TEXT_LEN,
        ensures
            r@.len() == points@.len(),
            forall|k: int|
                0 <= k < r@.len() ==> (#[trigger] r@[k]).measures(
                    self.summary_before_point(points@[k]),
                ),
    {
        let mut r: Vec<D> = Vec::new();
        let mut k: usize = 0;
        while k < points.len()
            invariant
                self.wf(),
                forall|k: int|
                    0 <= k < points@.len() ==> self.point_fits(#[trigger] points@[k])
                        && self.offset_of_point(points@[k]) <= MAX_TEXT_LEN,
                k <= points@.len(),
                r@.len() == k,
                forall|j: int|
                    0 <= j < k ==> (#[trigger] r@[j]).measures(
                        self.summary_before_point(points@[j]),
                    ),
            decreases points@.len() - k,
        {
            assert(self.point_fits(points@[k as int]));
            let summary = self.measure_before_point(points[k]);
            r.push(D::from_text_summary(&summary));
            k = k + 1;
        }
        r
    }

    fn measure_before_point(&self, point: Point) -> (r: TextSummary)
        requires
            self.wf(),
            self.point_fits(point),
            self.offset_of_point(point) <= MAX_TEXT_LEN,
        ensures
            r@ == self.summary_before_point(point),
    {
        let ghost es = self.excerpts@;
        let cursor = self.seek(&point, Bias::Right);
        proof {
            lemma_seek_point(es, point, Bias::Right);
            assert(es.take(es.len() as int) =~= es);
        }
        let mut summary = cursor.start;
        if cursor.index < self.excerpts.len() {
            let excerpt = &self.excerpts[cursor.index];
            let overshoot = point.minus(cursor.start.lines);
            let excerpt_start: usize = excerpt.buffer_start_offset();
            let buffer_point = excerpt.buffer_start_point().plus(overshoot);
            let buffer_offset: usize = excerpt.buffer.point_to_offset(buffer_point);
            proof {
                lemma_find_point_from(excerpt.buffer.bytes(), buffer_point, excerpt.start());
                lemma_summary_sound(
                    excerpt.buffer.bytes().subrange(excerpt_start as int, buffer_offset as int),
                );
            }
            let piece = excerpt.buffer.text_summary_for_range(excerpt_start..buffer_offset);
            summary.append(&piece);
        }
        summary
    }
}

} // verus!
