//! Where one excerpt of a multibuffer ends and the next one starts.

use std::sync::Arc;
use vstd::prelude::*;

use crate::buffer::{BufferId, BufferSnapshot, TextAnchor};
use crate::excerpt::{
    excerpt_start, excerpts_text, lemma_excerpt_start_grows, lemma_excerpts_text_split,
    lemma_excerpts_text_step, Excerpt, ExcerptId, ExcerptRange, MultiBufferRow,
};
use crate::position::ToOffset;
use crate::shared::share;
use crate::snapshot::lines::first_row;
use crate::snapshot::{excerpts_wf, lemma_seek_offset, seek_index, Cursor, MultiBufferSnapshot};
use crate::text::{lemma_summary_sound, point_at, Bias, TextSummary};

verus! {

/// What a boundary tells of an excerpt next to it.
#[derive(Debug)]
pub struct ExcerptInfo {
    pub id: ExcerptId,
    pub buffer: Arc<BufferSnapshot>,
    pub buffer_id: BufferId,
    pub range: ExcerptRange<TextAnchor>,
    pub text_summary: TextSummary,
}

/// A boundary between excerpts, or before the first, or behind the last.
#[derive(Debug)]
pub struct ExcerptBoundary {
    pub prev: Option<ExcerptInfo>,
    pub next: Option<ExcerptInfo>,
    /// The row that the next excerpt starts in.
    pub row: MultiBufferRow,
}

/// One end of a range.
#[derive(Clone, Copy, Debug)]
pub enum Bound<T> {
    Included(T),
    Excluded(T),
    Unbounded,
}

pub open spec fn info_of(e: Excerpt) -> ExcerptInfo {
    ExcerptInfo {
        id: e.id,
        buffer: e.buffer,
        buffer_id: e.buffer_id,
        range: e.range,
        text_summary: e.text_summary,
    }
}

impl ExcerptInfo {
    fn of(excerpt: &Excerpt) -> (r: Self)
        ensures
            r == info_of(*excerpt),
    {
        ExcerptInfo {
            id: excerpt.id,
            buffer: share(&excerpt.buffer),
            buffer_id: excerpt.buffer_id,
            range: excerpt.range.clone(),
            text_summary: excerpt.text_summary,
        }
    }
}

impl ExcerptBoundary {
    /// Whether the next excerpt is of another buffer than the one before.
    pub fn starts_new_buffer(&self) -> (r: bool)
        ensures
            r == match (self.prev, self.next) {
                (None, _) => true,
                (_, None) => false,
                (Some(prev), Some(next)) => prev.buffer_id != next.buffer_id,
            },
    {
        match (&self.prev, &self.next) {
            (None, _) => true,
            (_, None) => false,
            (Some(prev), Some(next)) => prev.buffer_id.0 != next.buffer_id.0,
        }
    }
}

/// The boundary before the `i`-th excerpt.
pub open spec fn boundary_at(es: Seq<Excerpt>, i: int) -> ExcerptBoundary {
    ExcerptBoundary {
        prev: if i > 0 {
            Some(info_of(es[i - 1]))
        } else {
            None
        },
        next: if i < es.len() {
            Some(info_of(es[i]))
        } else {
            None
        },
        row: MultiBufferRow(first_row(es, i) as u32),
    }
}

/// Whether an offset lies between two bounds.
pub open spec fn within(start: Bound<usize>, end: Bound<usize>, offset: int) -> bool {
    &&& match start {
        Bound::Included(bound) => bound <= offset,
        Bound::Excluded(bound) => bound < offset,
        Bound::Unbounded => true,
    }
    &&& match end {
        Bound::Included(bound) => offset <= bound,
        Bound::Excluded(bound) => offset < bound,
        Bound::Unbounded => true,
    }
}

fn is_within(start: &Bound<usize>, end: &Bound<usize>, offset: usize) -> (r: bool)
    ensures
        r == within(*start, *end, offset as int),
{
    (match start {
        Bound::Included(bound) => *bound <= offset,
        Bound::Excluded(bound) => *bound < offset,
        Bound::Unbounded => true,
    }) && match end {
        Bound::Included(bound) => offset <= *bound,
        Bound::Excluded(bound) => offset < *bound,
        Bound::Unbounded => true,
    }
}

/// The boundaries from the `i`-th on that lie between two bounds, up to the first
/// that does not.
pub open spec fn boundaries_from(
    es: Seq<Excerpt>,
    start: Bound<usize>,
    end: Bound<usize>,
    i: int,
) -> Seq<ExcerptBoundary>
    decreases es.len() - i + 1,
{
    if 0 <= i <= es.len() && within(start, end, excerpt_start(es, i)) {
        seq![boundary_at(es, i)] + boundaries_from(es, start, end, i + 1)
    } else {
        seq![]
    }
}

/// The first boundary that can lie between two bounds.
pub open spec fn first_boundary(es: Seq<Excerpt>, start: Bound<usize>, end: Bound<usize>) -> int {
    let offset = match start {
        Bound::Included(bound) => bound,
        Bound::Excluded(bound) => bound,
        Bound::Unbounded => 0,
    };
    let i = seek_index(es, offset, Bias::Right, 0);
    let at = if i == es.len() && i > 0 {
        i - 1
    } else {
        i
    };
    if !within(start, end, excerpt_start(es, at)) && at < es.len() {
        at + 1
    } else {
        at
    }
}

/// The offset of a bound.
pub open spec fn offset_bound<T: ToOffset>(
    bound: Bound<T>,
    snapshot: MultiBufferSnapshot,
) -> Bound<usize> {
    match bound {
        Bound::Included(position) => Bound::Included(position.offset(snapshot) as usize),
        Bound::Excluded(position) => Bound::Excluded(position.offset(snapshot) as usize),
        Bound::Unbounded => Bound::Unbounded,
    }
}

/// Whether a bound is a position of the multibuffer.
pub open spec fn is_bound<T: ToOffset>(bound: Bound<T>, snapshot: MultiBufferSnapshot) -> bool {
    match bound {
        Bound::Included(position) => position.is_position(snapshot),
        Bound::Excluded(position) => position.is_position(snapshot),
        Bound::Unbounded => true,
    }
}

fn to_offset_bound<T: ToOffset>(bound: &Bound<T>, snapshot: &MultiBufferSnapshot) -> (r:
    Bound<usize>)
    requires
        snapshot.wf(),
        is_bound(*bound, *snapshot),
    ensures
        r == offset_bound(*bound, *snapshot),
{
    match bound {
        Bound::Included(position) => Bound::Included(position.to_offset(snapshot)),
        Bound::Excluded(position) => Bound::Excluded(position.to_offset(snapshot)),
        Bound::Unbounded => Bound::Unbounded,
    }
}

impl MultiBufferSnapshot {
    /// The boundaries of excerpts between two bounds.
    pub fn excerpt_boundaries_in_range<T: ToOffset>(
        &self,
        start: Bound<T>,
        end: Bound<T>,
    ) -> (r: Vec<ExcerptBoundary>)
        requires
            self.wf(),
            is_bound(start, *self),
            is_bound(end, *self),
        ensures
            ({
                let es = self.excerpts@;
                let start = offset_bound(start, *self);
                let end = offset_bound(end, *self);
                r@ == if self.singleton {
                    seq![]
                } else {
                    boundaries_from(es, start, end, first_boundary(es, start, end))
                }
            }),
    {
        let ghost es = self.excerpts@;
        let start = to_offset_bound(&start, self);
        let end = to_offset_bound(&end, self);
        let mut boundaries: Vec<ExcerptBoundary> = Vec::new();
        if self.singleton {
            assert(boundaries@ =~= seq![]);
            return boundaries;
        }
        let offset: usize = match &start {
            Bound::Included(bound) => *bound,
            Bound::Excluded(bound) => *bound,
            Bound::Unbounded => 0,
        };
        let mut cursor = self.seek(&offset, Bias::Right);
        if cursor.index == self.excerpts.len() && cursor.index > 0 {
            cursor = self.cursor_at(cursor.index - 1);
        }
        if cursor.index < self.excerpts.len() && !is_within(&start, &end, cursor.start.len) {
            self.advance(&mut cursor);
        }
        let ghost all = boundaries_from(es, start, end, cursor.index as int);
        assert(boundaries@ + all =~= all);
        while cursor.index < self.excerpts.len() && is_within(&start, &end, cursor.start.len)
            invariant
                self.wf(),
                es == self.excerpts@,
                cursor.wf(es),
                boundaries@ + boundaries_from(es, start, end, cursor.index as int) == all,
            decreases es.len() - cursor.index,
        {
            let ghost i = cursor.index as int;
            let ghost before = boundaries@;
            boundaries.push(self.boundary(&cursor));
            self.advance(&mut cursor);
            assert(boundaries@ + boundaries_from(es, start, end, i + 1) =~= before
                + boundaries_from(es, start, end, i));
        }
        let ghost before = boundaries@;
        let ghost i = cursor.index as int;
        if cursor.index == self.excerpts.len() && is_within(&start, &end, cursor.start.len) {
            boundaries.push(self.boundary(&cursor));
            assert(boundaries_from(es, start, end, i + 1) =~= seq![]);
            assert(boundaries@ =~= before + boundaries_from(es, start, end, i));
        } else {
            assert(boundaries_from(es, start, end, i) =~= seq![]);
            assert(boundaries@ =~= before + boundaries_from(es, start, end, i));
        }
        boundaries
    }

    /// The boundary at a place between excerpts.
    fn boundary(&self, cursor: &Cursor) -> (r: ExcerptBoundary)
        requires
            self.wf(),
            cursor.wf(self.excerpts@),
        ensures
            r == boundary_at(self.excerpts@, cursor.index as int),
    {
        ExcerptBoundary {
            prev: if cursor.index > 0 {
                Some(ExcerptInfo::of(&self.excerpts[cursor.index - 1]))
            } else {
                None
            },
            next: if cursor.index < self.excerpts.len() {
                Some(ExcerptInfo::of(&self.excerpts[cursor.index]))
            } else {
                None
            },
            row: MultiBufferRow(cursor.start.lines.row),
        }
    }
}

/// Whether an offset is not before one bound and not behind the other.
pub open spec fn is_between(start: Bound<usize>, end: Bound<usize>, offset: int) -> bool {
    &&& start matches Bound::Included(bound) ==> offset >= bound
    &&& start matches Bound::Excluded(bound) ==> offset > bound
    &&& end matches Bound::Included(bound) ==> offset <= bound
    &&& end matches Bound::Excluded(bound) ==> offset < bound
}

/// Whether what a boundary tells of an excerpt is told of that excerpt.
pub open spec fn tells_of(info: ExcerptInfo, e: Excerpt) -> bool {
    &&& info.id == e.id
    &&& info.buffer == e.buffer
    &&& info.buffer_id == e.buffer_id
    &&& info.range == e.range
    &&& info.text_summary == e.text_summary
}

proof fn lemma_starts_strictly_grow(es: Seq<Excerpt>, i: int, j: int)
    requires
        excerpts_wf(es),
        0 <= i < j < es.len(),
    ensures
        excerpt_start(es, i) < excerpt_start(es, j),
{
    assert(es[i].has_trailing_newline);
    lemma_excerpts_text_step(es, i);
    lemma_excerpt_start_grows(es, i + 1, j);
}

proof fn lemma_boundaries_from(
    es: Seq<Excerpt>,
    start: Bound<usize>,
    end: Bound<usize>,
    i: int,
)
    requires
        0 <= i <= es.len() + 1,
    ensures
        ({
            let r = boundaries_from(es, start, end, i);
            &&& i + r.len() <= es.len() + 1
            &&& forall|m: int| 0 <= m < r.len() ==> #[trigger] r[m] == boundary_at(es, i + m)
            &&& forall|k: int|
                i <= k < i + r.len() ==> within(start, end, #[trigger] excerpt_start(es, k))
            &&& i + r.len() <= es.len() ==> !within(start, end, excerpt_start(es, i + r.len()))
        }),
    decreases es.len() - i + 1,
{
    let r = boundaries_from(es, start, end, i);
    if i <= es.len() && within(start, end, excerpt_start(es, i)) {
        lemma_boundaries_from(es, start, end, i + 1);
        let rest = boundaries_from(es, start, end, i + 1);
        assert forall|m: int| 0 <= m < r.len() implies #[trigger] r[m] == boundary_at(
            es,
            i + m,
        ) by {
            if m > 0 {
                assert(r[m] == rest[m - 1]);
            }
        }
    }
}

/// Which boundaries are listed.
#[verifier::rlimit(50)]
proof fn lemma_boundaries_listed(
    es: Seq<Excerpt>,
    start: Bound<usize>,
    end: Bound<usize>,
    k: int,
)
    requires
        excerpts_wf(es),
        0 <= k <= es.len(),
        start matches Bound::Included(bound) ==> bound <= excerpts_text(es).len(),
        start matches Bound::Excluded(bound) ==> bound <= excerpts_text(es).len(),
    ensures
        ({
            let first = first_boundary(es, start, end);
            let r = boundaries_from(es, start, end, first);
            &&& 0 <= first <= es.len()
            &&& is_between(start, end, excerpt_start(es, k)) <==> first <= k < first + r.len()
        }),
{
    let n = es.len() as int;
    let offset = match start {
        Bound::Included(bound) => bound,
        Bound::Excluded(bound) => bound,
        Bound::Unbounded => 0,
    };
    let first = first_boundary(es, start, end);
    let r = boundaries_from(es, start, end, first);
    let i = seek_index(es, offset, Bias::Right, 0);
    lemma_seek_offset(es, offset, Bias::Right);
    let at = if i == n && i > 0 {
        i - 1
    } else {
        i
    };
    assert(es.take(n) =~= es);
    assert(excerpt_start(es, at) <= offset) by {
        if i == n && i > 0 {
            lemma_excerpt_start_grows(es, at, n);
        }
    }
    assert(0 <= first <= n);
    lemma_boundaries_from(es, start, end, first);
    assert(is_between(start, end, excerpt_start(es, k)) == within(
        start,
        end,
        excerpt_start(es, k),
    ));
    if k < at {
        lemma_starts_strictly_grow(es, k, at);
    } else if k >= first + r.len() {
        let b = first + r.len();
        lemma_excerpt_start_grows(es, b, k);
        if b > first {
            assert(within(start, end, excerpt_start(es, b - 1)));
            lemma_excerpt_start_grows(es, b - 1, b);
        } else if first == at + 1 {
            lemma_excerpt_start_grows(es, at, at + 1);
            assert(excerpt_start(es, at + 1) >= offset);
        }
    }
}

/// What the boundary before the `i`-th excerpt tells.
proof fn lemma_boundary_tells(es: Seq<Excerpt>, i: int)
    requires
        excerpts_wf(es),
        0 <= i <= es.len(),
    ensures
        ({
            let b = boundary_at(es, i);
            &&& b.prev is None <==> i == 0
            &&& b.next is None <==> i == es.len()
            &&& i > 0 ==> tells_of(b.prev->0, es[i - 1])
            &&& i < es.len() ==> tells_of(b.next->0, es[i])
            &&& b.row.0 == point_at(excerpts_text(es), excerpt_start(es, i)).row
        }),
{
    let t = excerpts_text(es);
    lemma_excerpts_text_split(es, i);
    lemma_excerpt_start_grows(es, i, es.len() as int);
    lemma_summary_sound(excerpts_text(es.take(i)));
    assert(es.take(es.len() as int) =~= es);
    assert(t.take(excerpt_start(es, i)) =~= excerpts_text(es.take(i)));
}

/// The boundaries between two bounds are those before each excerpt, and behind the last,
/// that lie between the bounds, each once and in order. At each of them `prev` is the
/// excerpt that ends there and `next` the one that starts there, so that the `prev` of a
/// boundary is the `next` of the one before.
#[verifier::rlimit(50)]
pub proof fn lemma_boundaries(
    snapshot: MultiBufferSnapshot,
    start: Bound<usize>,
    end: Bound<usize>,
) -> (first: int)
    requires
        snapshot.wf(),
        start matches Bound::Included(bound) ==> bound <= snapshot.bytes().len(),
        start matches Bound::Excluded(bound) ==> bound <= snapshot.bytes().len(),
    ensures
        ({
            let es = snapshot.excerpts@;
            let r = boundaries_from(es, start, end, first_boundary(es, start, end));
            let n = es.len() as int;
            &&& 0 <= first
            &&& first + r.len() <= n + 1
            &&& forall|i: int|
                0 <= i <= n ==> (is_between(start, end, #[trigger] excerpt_start(es, i)) <==> first
                    <= i < first + r.len())
            &&& forall|m: int|
                0 <= m < r.len() ==> {
                    let i = first + m;
                    &&& (#[trigger] r[m]).prev is None <==> i == 0
                    &&& r[m].next is None <==> i == n
                    &&& i > 0 ==> tells_of(r[m].prev->0, es[i - 1])
                    &&& i < n ==> tells_of(r[m].next->0, es[i])
                    &&& r[m].row.0 == point_at(snapshot.bytes(), excerpt_start(es, i)).row
                }
            &&& forall|m: int, k: int|
                0 <= m && k == m + 1 && k < r.len() ==> (#[trigger] r[k]).prev == (
                #[trigger] r[m]).next
        }),
{
    let es = snapshot.excerpts@;
    let n = es.len() as int;
    let first = first_boundary(es, start, end);
    let r = boundaries_from(es, start, end, first);
    lemma_boundaries_listed(es, start, end, 0);
    lemma_boundaries_from(es, start, end, first);
    assert forall|i: int| 0 <= i <= n implies (is_between(
        start,
        end,
        #[trigger] excerpt_start(es, i),
    ) <==> first <= i < first + r.len()) by {
        lemma_boundaries_listed(es, start, end, i);
    }
    assert forall|m: int| 0 <= m < r.len() implies {
        let i = first + m;
        &&& (#[trigger] r[m]).prev is None <==> i == 0
        &&& r[m].next is None <==> i == n
        &&& i > 0 ==> tells_of(r[m].prev->0, es[i - 1])
        &&& i < n ==> tells_of(r[m].next->0, es[i])
        &&& r[m].row.0 == point_at(snapshot.bytes(), excerpt_start(es, i)).row
    } by {
        lemma_boundary_tells(es, first + m);
    }
    assert forall|m: int, k: int| 0 <= m && k == m + 1 && k < r.len() implies (
    #[trigger] r[k]).prev == (#[trigger] r[m]).next by {
        assert(r[k] == boundary_at(es, first + k));
        assert(r[m] == boundary_at(es, first + m));
    }
    first
}

} // verus!
