//! What the languages and the collaborators of the buffers know, carried over to
//! the multibuffer.
//!
//! The buffers reply to questions about their own text. The functions here say
//! what to ask, and carry the replies over.

use std::ops::Range;
use vstd::prelude::*;

use crate::buffer::BufferId;
use crate::excerpt::{Excerpt, ExcerptId};
use crate::position::ToOffset;
use crate::snapshot::excerpt_view::{are_views, clamped, starting_from, MultiBufferExcerpt};
use crate::snapshot::ranges::nearest_in_buffer;
use crate::snapshot::{seek_index, MultiBufferSnapshot};
use crate::excerpt::{excerpt_start, lemma_excerpts_text_split, lemma_excerpts_text_step};
use crate::text::Bias;

verus! {

/// Where an offset of the buffer of the `i`-th excerpt lies in the multibuffer, or
/// the nearest place that the excerpt shows.
pub open spec fn nearest_in_text(es: Seq<Excerpt>, i: int, offset: int) -> int {
    excerpt_start(es, i) + clamped(offset - es[i].start(), es[i].bytes().len() as int)
}

/// A range of the buffer of the `i`-th excerpt, in the multibuffer.
pub open spec fn range_in_text(es: Seq<Excerpt>, i: int, range: Range<usize>) -> Range<usize> {
    Range {
        start: nearest_in_text(es, i, range.start as int) as usize,
        end: nearest_in_text(es, i, range.end as int) as usize,
    }
}

/// Whether the `i`-th excerpt shows all that lies between two ranges of its buffer.
pub open spec fn shows_between(
    es: Seq<Excerpt>,
    i: int,
    open: Range<usize>,
    close: Range<usize>,
) -> bool {
    es[i].start() <= open.start && close.end <= es[i].end()
}

/// Those of some pairs of ranges that the `i`-th excerpt shows, in the multibuffer.
pub open spec fn shown_pairs(
    es: Seq<Excerpt>,
    i: int,
    pairs: Seq<(Range<usize>, Range<usize>)>,
) -> Seq<(Range<usize>, Range<usize>)>
    decreases pairs.len(),
{
    if pairs.len() == 0 {
        seq![]
    } else {
        let front = shown_pairs(es, i, pairs.drop_last());
        let (open, close) = pairs.last();
        if shows_between(es, i, open, close) {
            front.push((range_in_text(es, i, open), range_in_text(es, i, close)))
        } else {
            front
        }
    }
}

/// A range mapped by an excerpt that stands at the `i`-th place is in place.
pub fn map_from_buffer(view: &MultiBufferExcerpt<'_>, range: &Range<usize>) -> (r: Range<usize>)
    requires
        view.wf(),
    ensures
        forall|es: Seq<Excerpt>, i: int| #[trigger] view.is_at(es, i) ==> r == range_in_text(es, i, *range),
{
    view.map_range_from_buffer(range.start..range.end)
}

fn copy_shown_pairs(
    view: &MultiBufferExcerpt<'_>,
    pairs: &Vec<(Range<usize>, Range<usize>)>,
    Ghost(es): Ghost<Seq<Excerpt>>,
    Ghost(i): Ghost<int>,
) -> (r: Vec<(Range<usize>, Range<usize>)>)
    requires
        view.wf(),
        view.is_at(es, i),
    ensures
        r@ == shown_pairs(es, i, pairs@),
{
    let mut r: Vec<(Range<usize>, Range<usize>)> = Vec::new();
    let mut k: usize = 0;
    assert(pairs@.take(0) =~= Seq::<(Range<usize>, Range<usize>)>::empty());
    while k < pairs.len()
        invariant
            view.wf(),
            view.is_at(es, i),
            k <= pairs@.len(),
            r@ == shown_pairs(es, i, pairs@.take(k as int)),
        decreases pairs@.len() - k,
    {
        assert(pairs@.take(k + 1).drop_last() =~= pairs@.take(k as int));
        let (open, close) = &pairs[k];
        if view.contains_buffer_range(open.start..close.end) {
            r.push((map_from_buffer(view, open), map_from_buffer(view, close)));
        }
        k = k + 1;
    }
    assert(pairs@.take(pairs@.len() as int) =~= pairs@);
    r
}

impl MultiBufferSnapshot {
    /// Whether both ends of a range are positions of the multibuffer.
    pub open spec fn is_range<T: ToOffset>(&self, range: Range<T>) -> bool {
        range.start.is_position(*self) && range.end.is_position(*self)
    }

    /// The excerpt that shows both ends of a range.
    pub open spec fn index_of_range<T: ToOffset>(&self, range: Range<T>) -> int {
        self.containing_index(range.start.offset(*self), range.end.offset(*self))
    }

    /// The excerpt that shows both ends of a range, and the range in its buffer:
    /// what to ask the buffer about brackets and syntax around the range.
    pub fn range_in_excerpt<T: ToOffset>(&self, range: Range<T>) -> (r: Option<
        (ExcerptId, BufferId, Range<usize>),
    >)
        requires
            self.wf(),
            self.is_range(range),
        ensures
            ({
                let es = self.excerpts@;
                let i = self.index_of_range(range);
                match r {
                    Some((id, buffer_id, in_buffer)) => {
                        &&& i >= 0
                        &&& id == es[i].id
                        &&& buffer_id == es[i].buffer_id
                        &&& in_buffer.start == nearest_in_buffer(
                            es,
                            i,
                            range.start.offset(*self),
                        )
                        &&& in_buffer.end == nearest_in_buffer(es, i, range.end.offset(*self))
                    },
                    None => i < 0,
                }
            }),
    {
        let start: usize = range.start.to_offset(self);
        let end: usize = range.end.to_offset(self);
        match self.excerpt_containing(start..end) {
            Some(view) => Some(
                (view.id(), view.excerpt.buffer_id, view.map_range_to_buffer(start..end)),
            ),
            None => None,
        }
    }

    /// Whether the smallest brackets around a range may be these: the excerpt shows
    /// them both. Returns where they are in the multibuffer.
    pub fn bracket_candidate<T: ToOffset>(
        &self,
        range: Range<T>,
        open: Range<usize>,
        close: Range<usize>,
    ) -> (r: Option<(Range<usize>, Range<usize>)>)
        requires
            self.wf(),
            self.is_range(range),
        ensures
            ({
                let es = self.excerpts@;
                let i = self.index_of_range(range);
                r == if i >= 0 && shows_between(es, i, open, close) {
                    Some((range_in_text(es, i, open), range_in_text(es, i, close)))
                } else {
                    None
                }
            }),
    {
        match self.excerpt_containing(range) {
            Some(view) => if view.contains_buffer_range(open.start..close.end) {
                Some((map_from_buffer(&view, &open), map_from_buffer(&view, &close)))
            } else {
                None
            },
            None => None,
        }
    }

    /// The smallest brackets around a range. The buffer has replied with its
    /// smallest brackets around the range, among those that may be.
    pub fn innermost_enclosing_bracket_ranges<T: ToOffset>(
        &self,
        range: Range<T>,
        innermost: &Option<(Range<usize>, Range<usize>)>,
    ) -> (r: Option<(Range<usize>, Range<usize>)>)
        requires
            self.wf(),
            self.is_range(range),
        ensures
            ({
                let es = self.excerpts@;
                let i = self.index_of_range(range);
                r == match *innermost {
                    Some((open, close)) => if i >= 0 {
                        Some((range_in_text(es, i, open), range_in_text(es, i, close)))
                    } else {
                        None
                    },
                    None => None,
                }
            }),
    {
        match self.excerpt_containing(range) {
            Some(view) => match innermost {
                Some((open, close)) => Some(
                    (map_from_buffer(&view, open), map_from_buffer(&view, close)),
                ),
                None => None,
            },
            None => None,
        }
    }

    /// The brackets around a range. The buffer has replied with its brackets around
    /// the range.
    pub fn enclosing_bracket_ranges<T: ToOffset>(
        &self,
        range: Range<T>,
        enclosing: &Vec<(Range<usize>, Range<usize>)>,
    ) -> (r: Option<Vec<(Range<usize>, Range<usize>)>>)
        requires
            self.wf(),
            self.is_range(range),
        ensures
            match r {
                Some(pairs) => self.index_of_range(range) >= 0 && pairs@ == shown_pairs(
                    self.excerpts@,
                    self.index_of_range(range),
                    enclosing@,
                ),
                None => self.index_of_range(range) < 0,
            },
    {
        let ghost i = self.index_of_range(range);
        match self.excerpt_containing(range) {
            Some(view) => Some(
                copy_shown_pairs(&view, enclosing, Ghost(self.excerpts@), Ghost(i)),
            ),
            None => None,
        }
    }

    /// The brackets that overlap a range. The buffer has replied with its brackets
    /// that overlap the range.
    pub fn bracket_ranges<T: ToOffset>(
        &self,
        range: Range<T>,
        overlapping: &Vec<(Range<usize>, Range<usize>)>,
    ) -> (r: Option<Vec<(Range<usize>, Range<usize>)>>)
        requires
            self.wf(),
            self.is_range(range),
        ensures
            match r {
                Some(pairs) => self.index_of_range(range) >= 0 && pairs@ == shown_pairs(
                    self.excerpts@,
                    self.index_of_range(range),
                    overlapping@,
                ),
                None => self.index_of_range(range) < 0,
            },
    {
        self.enclosing_bracket_ranges(range, overlapping)
    }

    /// Where the syntax node around a range lies. The buffer has replied with the
    /// node's range.
    pub fn syntax_ancestor<T: ToOffset>(&self, range: Range<T>, node: &Option<Range<usize>>) -> (r:
        Option<Range<usize>>)
        requires
            self.wf(),
            self.is_range(range),
        ensures
            r == match *node {
                Some(node) => if self.index_of_range(range) >= 0 {
                    Some(range_in_text(self.excerpts@, self.index_of_range(range), node))
                } else {
                    None
                },
                None => None,
            },
    {
        match self.excerpt_containing(range) {
            Some(view) => match node {
                Some(node) => Some(map_from_buffer(&view, node)),
                None => None,
            },
            None => None,
        }
    }
}

/// The ranges of a buffer, in the multibuffer.
pub open spec fn ranges_in_text(es: Seq<Excerpt>, i: int, ranges: Seq<Range<usize>>) -> Seq<
    Range<usize>,
> {
    ranges.map_values(|range: Range<usize>| range_in_text(es, i, range))
}

/// The first range from `from` on that does not end before `start`.
pub open spec fn first_reaching(ranges: Seq<Range<usize>>, start: int, from: int) -> int
    decreases ranges.len() - from,
{
    if from >= ranges.len() {
        ranges.len() as int
    } else if ranges[from].end < start {
        first_reaching(ranges, start, from + 1)
    } else {
        from
    }
}

/// The first range from `from` on that does not start before `end`.
pub open spec fn first_past(ranges: Seq<Range<usize>>, end: int, from: int) -> int
    decreases ranges.len() - from,
{
    if from >= ranges.len() {
        ranges.len() as int
    } else if ranges[from].start < end {
        first_past(ranges, end, from + 1)
    } else {
        from
    }
}

/// The ranges without those at the front that end before a stretch, up to the
/// first that starts behind it.
pub open spec fn trimmed(ranges: Seq<Range<usize>>, start: int, end: int) -> Seq<Range<usize>> {
    let from = first_reaching(ranges, start, 0);
    ranges.subrange(from, first_past(ranges, end, from))
}

/// The ranges that the excerpts from `from` to before `to` have been asked for,
/// each excerpt's trimmed to a stretch.
pub open spec fn all_trimmed(
    es: Seq<Excerpt>,
    from: int,
    to: int,
    replies: Seq<Vec<Range<usize>>>,
    start: int,
    end: int,
) -> Seq<Range<usize>>
    decreases to - from,
{
    if to <= from {
        seq![]
    } else {
        all_trimmed(es, from, to - 1, replies, start, end) + trimmed(
            ranges_in_text(es, to - 1, replies[to - 1 - from]@),
            start,
            end,
        )
    }
}

proof fn lemma_trim(ranges: Seq<Range<usize>>, start: int, end: int, from: int)
    requires
        0 <= from <= ranges.len(),
    ensures
        from <= first_reaching(ranges, start, from) <= ranges.len(),
        from <= first_past(ranges, end, from) <= ranges.len(),
    decreases ranges.len() - from,
{
    if from < ranges.len() {
        lemma_trim(ranges, start, end, from + 1);
    }
}

fn push_trimmed(
    into: &mut Vec<Range<usize>>,
    view: &MultiBufferExcerpt<'_>,
    ranges: &Vec<Range<usize>>,
    start: usize,
    end: usize,
    Ghost(es): Ghost<Seq<Excerpt>>,
    Ghost(i): Ghost<int>,
)
    requires
        view.wf(),
        view.is_at(es, i),
    ensures
        final(into)@ == old(into)@ + trimmed(
            ranges_in_text(es, i, ranges@),
            start as int,
            end as int,
        ),
{
    let ghost mapped = ranges_in_text(es, i, ranges@);
    let ghost before = into@;
    let mut k: usize = 0;
    while k < ranges.len() && map_from_buffer(view, &ranges[k]).end < start
        invariant
            view.wf(),
            view.is_at(es, i),
            mapped == ranges_in_text(es, i, ranges@),
            k <= ranges@.len(),
            first_reaching(mapped, start as int, 0) == first_reaching(
                mapped,
                start as int,
                k as int,
            ),
        decreases ranges@.len() - k,
    {
        k = k + 1;
    }
    let ghost from = k as int;
    proof {
        lemma_trim(mapped, start as int, end as int, from);
    }
    assert(before + mapped.subrange(from, from) =~= before);
    while k < ranges.len() && map_from_buffer(view, &ranges[k]).start < end
        invariant
            view.wf(),
            view.is_at(es, i),
            mapped == ranges_in_text(es, i, ranges@),
            0 <= from <= k <= ranges@.len(),
            first_past(mapped, end as int, from) == first_past(mapped, end as int, k as int),
            into@ == before + mapped.subrange(from, k as int),
        decreases ranges@.len() - k,
    {
        into.push(map_from_buffer(view, &ranges[k]));
        k = k + 1;
        assert(into@ =~= before + mapped.subrange(from, k as int));
    }
}

impl MultiBufferSnapshot {
    /// The first excerpt that a range reaches into.
    pub open spec fn range_from(&self, start: int) -> int {
        seek_index(self.excerpts@, start as usize, Bias::Right, 0)
    }

    /// The first excerpt that a range does not reach into any more.
    pub open spec fn range_to(&self, start: int, end: int) -> int {
        starting_from(self.excerpts@, end, self.range_from(start))
    }

    /// Where a range is to be redacted. Each buffer whose excerpt the range reaches
    /// into has replied with what is to be redacted of the excerpt, which is
    /// nothing where its file is not redacted.
    pub fn redacted_ranges<T: ToOffset>(&self, range: Range<T>, redacted: &Vec<Vec<Range<usize>>>)
        -> (r: Vec<Range<usize>>)
        requires
            self.wf(),
            self.is_range(range),
            ({
                let from = self.range_from(range.start.offset(*self));
                let to = self.range_to(range.start.offset(*self), range.end.offset(*self));
                redacted@.len() == if to > from {
                    to - from
                } else {
                    0
                }
            }),
        ensures
            ({
                let start = range.start.offset(*self);
                let end = range.end.offset(*self);
                r@ == all_trimmed(
                    self.excerpts@,
                    self.range_from(start),
                    self.range_to(start, end),
                    redacted@,
                    start,
                    end,
                )
            }),
    {
        let start: usize = range.start.to_offset(self);
        let end: usize = range.end.to_offset(self);
        let ghost es = self.excerpts@;
        let ghost from = self.range_from(start as int);
        let views = self.excerpts_for_range(start..end);
        let mut r: Vec<Range<usize>> = Vec::new();
        let mut k: usize = 0;
        while k < views.len()
            invariant
                self.wf(),
                es == self.excerpts@,
                are_views(views@, es, from, self.range_to(start as int, end as int)),
                redacted@.len() == views@.len(),
                k <= views@.len(),
                r@ == all_trimmed(es, from, from + k, redacted@, start as int, end as int),
            decreases views@.len() - k,
        {
            let view = &views[k];
            proof {
                assert(views@[k as int].is_at(es, from + k));
                lemma_view_wf(*self, views@[k as int], from + k);
            }
            push_trimmed(&mut r, view, &redacted[k], start, end, Ghost(es), Ghost(from + k));
            k = k + 1;
        }
        r
    }
}

/// An excerpt of a multibuffer can be mapped.
pub proof fn lemma_view_wf(snapshot: MultiBufferSnapshot, view: MultiBufferExcerpt<'_>, i: int)
    requires
        snapshot.wf(),
        view.is_at(snapshot.excerpts@, i),
    ensures
        view.wf(),
{
    let es = snapshot.excerpts@;
    lemma_excerpts_text_step(es, i);
    lemma_excerpts_text_split(es, i + 1);
    assert(es[i].wf());
}

} // verus!
