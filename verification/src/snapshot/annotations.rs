//! Runnables, indent guides, outlines and selections of the buffers, carried over
//! to the multibuffer.

use std::ops::Range;
use std::sync::Arc;
use vstd::prelude::*;

use crate::anchor::Anchor;
use crate::buffer::{BufferId, TextAnchor};
use crate::excerpt::{Excerpt, MultiBufferRow};
use crate::multi_buffer::selections::Selection;
use crate::position::ToOffset;
use crate::shared::share;
use crate::snapshot::excerpt_view::{are_views, MultiBufferExcerpt};
use crate::snapshot::language::{lemma_view_wf, map_from_buffer, range_in_text};
use crate::snapshot::lines::{first_row, lemma_excerpt_rows};
use crate::snapshot::MultiBufferSnapshot;
use crate::text::{point_at, Bias};

verus! {

/// Something that can be run, by the excerpt that shows it and its number among
/// that excerpt's, and where it is run from.
#[derive(Debug)]
pub struct RunnableRange {
    pub excerpt: usize,
    pub number: usize,
    pub run_range: Range<usize>,
}

/// Whether the `i`-th excerpt shows where something is run from.
pub open spec fn shows_runnable(es: Seq<Excerpt>, i: int, run_range: Range<usize>) -> bool {
    &&& run_range.start >= es[i].start()
    &&& point_at(es[i].buffer.bytes(), run_range.end as int).row <= es[i].max_buffer_row
}

/// The runnables that the `i`-th excerpt shows.
pub open spec fn shown_runnables(
    es: Seq<Excerpt>,
    i: int,
    excerpt: int,
    run_ranges: Seq<Range<usize>>,
) -> Seq<RunnableRange>
    decreases run_ranges.len(),
{
    if run_ranges.len() == 0 {
        seq![]
    } else {
        let front = shown_runnables(es, i, excerpt, run_ranges.drop_last());
        if shows_runnable(es, i, run_ranges.last()) {
            front.push(
                RunnableRange {
                    excerpt: excerpt as usize,
                    number: (run_ranges.len() - 1) as usize,
                    run_range: range_in_text(es, i, run_ranges.last()),
                },
            )
        } else {
            front
        }
    }
}

/// The first runnable from `from` on that does not end before `start`.
pub open spec fn first_runnable(runnables: Seq<RunnableRange>, start: int, from: int) -> int
    decreases runnables.len() - from,
{
    if from >= runnables.len() {
        runnables.len() as int
    } else if runnables[from].run_range.end < start {
        first_runnable(runnables, start, from + 1)
    } else {
        from
    }
}

/// The first runnable from `from` on that does not start before `end`.
pub open spec fn runnable_past(runnables: Seq<RunnableRange>, end: int, from: int) -> int
    decreases runnables.len() - from,
{
    if from >= runnables.len() {
        runnables.len() as int
    } else if runnables[from].run_range.start < end {
        runnable_past(runnables, end, from + 1)
    } else {
        from
    }
}

/// The runnables without those at the front that end before a stretch, up to the
/// first that starts behind it.
pub open spec fn trimmed_runnables(
    runnables: Seq<RunnableRange>,
    start: int,
    end: int,
) -> Seq<RunnableRange> {
    let from = first_runnable(runnables, start, 0);
    runnables.subrange(from, runnable_past(runnables, end, from))
}

/// The runnables of the excerpts from `from` to before `to`, each excerpt's trimmed
/// to a stretch.
pub open spec fn all_runnables(
    es: Seq<Excerpt>,
    from: int,
    to: int,
    replies: Seq<Vec<Range<usize>>>,
    start: int,
    end: int,
) -> Seq<RunnableRange>
    decreases to - from,
{
    if to <= from {
        seq![]
    } else {
        all_runnables(es, from, to - 1, replies, start, end) + trimmed_runnables(
            shown_runnables(es, to - 1, to - 1 - from, replies[to - 1 - from]@),
            start,
            end,
        )
    }
}

proof fn lemma_trim_runnables(runnables: Seq<RunnableRange>, start: int, end: int, from: int)
    requires
        0 <= from <= runnables.len(),
    ensures
        from <= first_runnable(runnables, start, from) <= runnables.len(),
        from <= runnable_past(runnables, end, from) <= runnables.len(),
    decreases runnables.len() - from,
{
    if from < runnables.len() {
        lemma_trim_runnables(runnables, start, end, from + 1);
    }
}

/// Whether ranges lie within the text of the `i`-th excerpt's buffer.
pub open spec fn in_buffer(es: Seq<Excerpt>, i: int, ranges: Seq<Range<usize>>) -> bool {
    forall|k: int|
        0 <= k < ranges.len() ==> (#[trigger] ranges[k]).end <= es[i].buffer.bytes().len()
}

fn collect_runnables(
    view: &MultiBufferExcerpt<'_>,
    excerpt: usize,
    run_ranges: &Vec<Range<usize>>,
    Ghost(es): Ghost<Seq<Excerpt>>,
    Ghost(i): Ghost<int>,
) -> (r: Vec<RunnableRange>)
    requires
        view.wf(),
        view.is_at(es, i),
        in_buffer(es, i, run_ranges@),
    ensures
        r@ == shown_runnables(es, i, excerpt as int, run_ranges@),
{
    let mut r: Vec<RunnableRange> = Vec::new();
    let mut k: usize = 0;
    assert(run_ranges@.take(0) =~= Seq::<Range<usize>>::empty());
    while k < run_ranges.len()
        invariant
            view.wf(),
            view.is_at(es, i),
            in_buffer(es, i, run_ranges@),
            k <= run_ranges@.len(),
            r@ == shown_runnables(es, i, excerpt as int, run_ranges@.take(k as int)),
        decreases run_ranges@.len() - k,
    {
        assert(run_ranges@.take(k + 1).drop_last() =~= run_ranges@.take(k as int));
        assert(run_ranges@[k as int].end <= es[i].buffer.bytes().len());
        let run_range = &run_ranges[k];
        if run_range.start >= view.excerpt.buffer_start_offset() && view.buffer().offset_to_point(
            run_range.end,
        ).row <= view.max_buffer_row() {
            r.push(
                RunnableRange {
                    excerpt,
                    number: k,
                    run_range: map_from_buffer(view, run_range),
                },
            );
        }
        k = k + 1;
    }
    assert(run_ranges@.take(run_ranges@.len() as int) =~= run_ranges@);
    r
}

fn push_runnables(
    into: &mut Vec<RunnableRange>,
    runnables: &Vec<RunnableRange>,
    start: usize,
    end: usize,
)
    ensures
        final(into)@ == old(into)@ + trimmed_runnables(runnables@, start as int, end as int),
{
    let ghost before = into@;
    let mut k: usize = 0;
    while k < runnables.len() && runnables[k].run_range.end < start
        invariant
            k <= runnables@.len(),
            first_runnable(runnables@, start as int, 0) == first_runnable(
                runnables@,
                start as int,
                k as int,
            ),
        decreases runnables@.len() - k,
    {
        k = k + 1;
    }
    let ghost from = k as int;
    proof {
        lemma_trim_runnables(runnables@, start as int, end as int, from);
    }
    assert(before + runnables@.subrange(from, from) =~= before);
    while k < runnables.len() && runnables[k].run_range.start < end
        invariant
            0 <= from <= k <= runnables@.len(),
            runnable_past(runnables@, end as int, from) == runnable_past(
                runnables@,
                end as int,
                k as int,
            ),
            into@ == before + runnables@.subrange(from, k as int),
        decreases runnables@.len() - k,
    {
        let runnable = &runnables[k];
        into.push(
            RunnableRange {
                excerpt: runnable.excerpt,
                number: runnable.number,
                run_range: runnable.run_range.start..runnable.run_range.end,
            },
        );
        k = k + 1;
        assert(into@ =~= before + runnables@.subrange(from, k as int));
    }
}

/// How many excerpts lie between two.
pub open spec fn count_between(from: int, to: int) -> int {
    if to > from {
        to - from
    } else {
        0
    }
}

impl MultiBufferSnapshot {
    /// What can be run in a range. Each buffer whose excerpt the range reaches into
    /// has replied with the ranges that its runnables are run from.
    pub fn runnable_ranges<T: ToOffset>(&self, range: Range<T>, run_ranges: &Vec<Vec<Range<usize>>>)
        -> (r: Vec<RunnableRange>)
        requires
            self.wf(),
            self.is_range(range),
            ({
                let from = self.range_from(range.start.offset(*self));
                let to = self.range_to(range.start.offset(*self), range.end.offset(*self));
                &&& run_ranges@.len() == count_between(from, to)
                &&& forall|k: int|
                    0 <= k < run_ranges@.len() ==> in_buffer(
                        self.excerpts@,
                        from + k,
                        (#[trigger] run_ranges@[k])@,
                    )
            }),
        ensures
            ({
                let start = range.start.offset(*self);
                let end = range.end.offset(*self);
                r@ == all_runnables(
                    self.excerpts@,
                    self.range_from(start),
                    self.range_to(start, end),
                    run_ranges@,
                    start,
                    end,
                )
            }),
    {
        let start: usize = range.start.to_offset(self);
        let end: usize = range.end.to_offset(self);
        let ghost es = self.excerpts@;
        let ghost from = self.range_from(start as int);
        let views = self.excerpts_for_range(start..end);
        let mut r: Vec<RunnableRange> = Vec::new();
        let mut k: usize = 0;
        while k < views.len()
            invariant
                self.wf(),
                es == self.excerpts@,
                are_views(views@, es, from, self.range_to(start as int, end as int)),
                run_ranges@.len() == views@.len(),
                forall|k: int|
                    0 <= k < run_ranges@.len() ==> in_buffer(
                        es,
                        from + k,
                        (#[trigger] run_ranges@[k])@,
                    ),
                k <= views@.len(),
                r@ == all_runnables(es, from, from + k, run_ranges@, start as int, end as int),
            decreases views@.len() - k,
        {
            let view = &views[k];
            proof {
                assert(views@[k as int].is_at(es, from + k));
                lemma_view_wf(*self, views@[k as int], from + k);
                assert(in_buffer(es, from + k, run_ranges@[k as int]@));
            }
            let shown = collect_runnables(view, k, &run_ranges[k], Ghost(es), Ghost(from + k));
            push_runnables(&mut r, &shown, start, end);
            k = k + 1;
        }
        r
    }
}

/// A guide along the lines of a buffer that share an indent.
#[derive(Clone, Copy, Debug)]
pub struct IndentGuide<S> {
    pub buffer_id: BufferId,
    pub start_row: u32,
    pub end_row: u32,
    pub depth: u32,
    pub tab_size: u32,
    pub settings: S,
}

/// A guide along the lines of a multibuffer that share an indent.
#[derive(Debug)]
pub struct MultiBufferIndentGuide<S> {
    pub multibuffer_row_range: Range<MultiBufferRow>,
    pub buffer: IndentGuide<S>,
}

/// A row of the buffer of the `i`-th excerpt, in the multibuffer.
pub open spec fn row_in_text(es: Seq<Excerpt>, i: int, row: u32) -> int {
    first_row(es, i) + row - es[i].start_pos().row
}

/// A guide of the buffer of the `i`-th excerpt, in the multibuffer.
pub open spec fn guide_in_text<S>(
    es: Seq<Excerpt>,
    i: int,
    guide: IndentGuide<S>,
) -> MultiBufferIndentGuide<S> {
    MultiBufferIndentGuide {
        multibuffer_row_range: Range {
            start: MultiBufferRow(row_in_text(es, i, guide.start_row) as u32),
            end: MultiBufferRow(row_in_text(es, i, guide.end_row) as u32),
        },
        buffer: guide,
    }
}

/// The guides that the excerpts from `from` to before `to` have been asked for.
pub open spec fn all_guides<S>(
    es: Seq<Excerpt>,
    from: int,
    to: int,
    replies: Seq<Vec<IndentGuide<S>>>,
) -> Seq<MultiBufferIndentGuide<S>>
    decreases to - from,
{
    if to <= from {
        seq![]
    } else {
        all_guides(es, from, to - 1, replies) + replies[to - 1 - from]@.map_values(
            |guide: IndentGuide<S>| guide_in_text(es, to - 1, guide),
        )
    }
}

/// Whether guides lie in rows that the `i`-th excerpt shows, or behind them.
pub open spec fn guides_fit<S>(es: Seq<Excerpt>, i: int, guides: Seq<IndentGuide<S>>) -> bool {
    forall|k: int|
        0 <= k < guides.len() ==> {
            &&& es[i].start_pos().row <= (#[trigger] guides[k]).start_row
            &&& es[i].start_pos().row <= guides[k].end_row
            &&& row_in_text(es, i, guides[k].start_row) <= u32::MAX
            &&& row_in_text(es, i, guides[k].end_row) <= u32::MAX
        }
}

impl MultiBufferSnapshot {
    /// Whether the multibuffer shows a single buffer.
    pub open spec fn shows_single(&self) -> bool {
        self.singleton && self.excerpts@.len() > 0
    }

    /// The indent guides in a range. The only buffer has replied with its guides, or
    /// each buffer whose excerpt the range reaches into with those of the excerpt.
    pub fn indent_guides_in_range<S: Copy>(
        &self,
        range: Range<Anchor>,
        guides: &Vec<Vec<IndentGuide<S>>>,
    ) -> (r: Vec<MultiBufferIndentGuide<S>>)
        requires
            self.wf(),
            self.shows_single() ==> guides@.len() == 1,
            !self.shows_single() ==> {
                let from = self.range_from(range.start.offset(*self));
                let to = self.range_to(range.start.offset(*self), range.end.offset(*self));
                &&& self.is_range(range)
                &&& guides@.len() == count_between(from, to)
                &&& forall|k: int|
                    0 <= k < guides@.len() ==> guides_fit(
                        self.excerpts@,
                        from + k,
                        (#[trigger] guides@[k])@,
                    )
            },
        ensures
            self.shows_single() ==> r@ == guides@[0]@.map_values(
                |guide: IndentGuide<S>|
                    MultiBufferIndentGuide {
                        multibuffer_row_range: Range {
                            start: MultiBufferRow(guide.start_row),
                            end: MultiBufferRow(guide.end_row),
                        },
                        buffer: guide,
                    },
            ),
            !self.shows_single() ==> r@ == all_guides(
                self.excerpts@,
                self.range_from(range.start.offset(*self)),
                self.range_to(range.start.offset(*self), range.end.offset(*self)),
                guides@,
            ),
    {
        let ghost es = self.excerpts@;
        let mut r: Vec<MultiBufferIndentGuide<S>> = Vec::new();
        if self.singleton && self.excerpts.len() > 0 {
            let of_buffer = &guides[0];
            let ghost all = of_buffer@.map_values(
                |guide: IndentGuide<S>|
                    MultiBufferIndentGuide {
                        multibuffer_row_range: Range {
                            start: MultiBufferRow(guide.start_row),
                            end: MultiBufferRow(guide.end_row),
                        },
                        buffer: guide,
                    },
            );
            let mut k: usize = 0;
            while k < of_buffer.len()
                invariant
                    k <= of_buffer@.len(),
                    all.len() == of_buffer@.len(),
                    forall|k: int|
                        0 <= k < all.len() ==> #[trigger] all[k] == (MultiBufferIndentGuide {
                            multibuffer_row_range: Range {
                                start: MultiBufferRow(of_buffer@[k].start_row),
                                end: MultiBufferRow(of_buffer@[k].end_row),
                            },
                            buffer: of_buffer@[k],
                        }),
                    r@ == all.take(k as int),
                decreases of_buffer@.len() - k,
            {
                let guide = of_buffer[k];
                r.push(
                    MultiBufferIndentGuide {
                        multibuffer_row_range: Range {
                            start: MultiBufferRow(guide.start_row),
                            end: MultiBufferRow(guide.end_row),
                        },
                        buffer: guide,
                    },
                );
                assert(r@ =~= all.take(k + 1));
                k = k + 1;
            }
            assert(all.take(all.len() as int) =~= all);
            return r;
        }
        let start: usize = range.start.to_offset(self);
        let end: usize = range.end.to_offset(self);
        let ghost from = self.range_from(start as int);
        let views = self.excerpts_for_range(start..end);
        let mut k: usize = 0;
        while k < views.len()
            invariant
                self.wf(),
                es == self.excerpts@,
                are_views(views@, es, from, self.range_to(start as int, end as int)),
                guides@.len() == views@.len(),
                forall|k: int|
                    0 <= k < guides@.len() ==> guides_fit(es, from + k, (#[trigger] guides@[k])@),
                k <= views@.len(),
                r@ == all_guides(es, from, from + k, guides@),
            decreases views@.len() - k,
        {
            let view = &views[k];
            proof {
                assert(views@[k as int].is_at(es, from + k));
                lemma_view_wf(*self, views@[k as int], from + k);
                assert(guides_fit(es, from + k, guides@[k as int]@));
                lemma_excerpt_rows(es, from + k);
            }
            push_guides(&mut r, view, &guides[k], Ghost(es), Ghost(from + k));
            k = k + 1;
        }
        r
    }
}

fn push_guides<S: Copy>(
    into: &mut Vec<MultiBufferIndentGuide<S>>,
    view: &MultiBufferExcerpt<'_>,
    guides: &Vec<IndentGuide<S>>,
    Ghost(es): Ghost<Seq<Excerpt>>,
    Ghost(i): Ghost<int>,
)
    requires
        view.wf(),
        view.is_at(es, i),
        guides_fit(es, i, guides@),
        0 <= es[i].start_pos().row,
    ensures
        final(into)@ == old(into)@ + guides@.map_values(
            |guide: IndentGuide<S>| guide_in_text(es, i, guide),
        ),
{
    let ghost all = guides@.map_values(|guide: IndentGuide<S>| guide_in_text(es, i, guide));
    let ghost before = into@;
    let buffer_start_row: u32 = view.excerpt.buffer_start_point().row;
    let offset_row: u32 = view.start_point().row;
    let mut k: usize = 0;
    assert(before + all.take(0) =~= before);
    while k < guides.len()
        invariant
            guides_fit(es, i, guides@),
            buffer_start_row == es[i].start_pos().row,
            offset_row == first_row(es, i),
            k <= guides@.len(),
            all.len() == guides@.len(),
            forall|k: int|
                0 <= k < all.len() ==> #[trigger] all[k] == guide_in_text(es, i, guides@[k]),
            into@ == before + all.take(k as int),
        decreases guides@.len() - k,
    {
        let guide = guides[k];
        assert(es[i].start_pos().row <= guides@[k as int].start_row);
        into.push(
            MultiBufferIndentGuide {
                multibuffer_row_range: MultiBufferRow(
                    offset_row + (guide.start_row - buffer_start_row),
                )..MultiBufferRow(offset_row + (guide.end_row - buffer_start_row)),
                buffer: guide,
            },
        );
        assert(into@ =~= before + all.take(k + 1));
        k = k + 1;
    }
    assert(all.take(all.len() as int) =~= all);
}

/// An entry of an outline.
#[derive(Debug)]
pub struct OutlineItem<T, X> {
    pub depth: usize,
    pub range: Range<T>,
    pub body_range: Option<Range<T>>,
    pub annotation_range: Option<Range<T>>,
    /// Its text, and what is to be known of it.
    pub content: Arc<X>,
}

/// A position in a buffer, as an anchor in the `i`-th excerpt.
pub open spec fn anchor_in(es: Seq<Excerpt>, i: int, text_anchor: TextAnchor) -> Anchor {
    Anchor {
        buffer_id: Some(es[i].buffer_id),
        excerpt_id: es[i].id,
        text_anchor: es[i].clipped_anchor(text_anchor),
    }
}

pub open spec fn anchors_in(es: Seq<Excerpt>, i: int, range: Range<TextAnchor>) -> Range<Anchor> {
    Range { start: anchor_in(es, i, range.start), end: anchor_in(es, i, range.end) }
}

/// An entry of the outline of the `i`-th excerpt's buffer, in the multibuffer.
pub open spec fn item_in<X>(
    es: Seq<Excerpt>,
    i: int,
    item: OutlineItem<TextAnchor, X>,
) -> OutlineItem<Anchor, X> {
    OutlineItem {
        depth: item.depth,
        range: anchors_in(es, i, item.range),
        body_range: match item.body_range {
            Some(range) => Some(anchors_in(es, i, range)),
            None => None,
        },
        annotation_range: match item.annotation_range {
            Some(range) => Some(anchors_in(es, i, range)),
            None => None,
        },
        content: item.content,
    }
}

impl Excerpt {
    /// A position in the buffer, as an anchor in the excerpt.
    fn anchor(&self, text_anchor: TextAnchor) -> (r: Anchor)
        requires
            self.wf(),
        ensures
            r == (Anchor {
                buffer_id: Some(self.buffer_id),
                excerpt_id: self.id,
                text_anchor: self.clipped_anchor(text_anchor),
            }),
    {
        Anchor {
            buffer_id: Some(self.buffer_id),
            excerpt_id: self.id,
            text_anchor: self.clip_anchor(text_anchor),
        }
    }

    fn anchors(&self, range: &Range<TextAnchor>) -> (r: Range<Anchor>)
        requires
            self.wf(),
        ensures
            forall|es: Seq<Excerpt>, i: int|
                0 <= i < es.len() && #[trigger] es[i] == *self ==> r == anchors_in(es, i, *range),
    {
        self.anchor(range.start)..self.anchor(range.end)
    }
}

impl MultiBufferSnapshot {
    fn items_in<X>(&self, i: usize, items: &Vec<OutlineItem<TextAnchor, X>>) -> (r: Vec<
        OutlineItem<Anchor, X>,
    >)
        requires
            self.wf(),
            i < self.excerpts@.len(),
        ensures
            r@ == items@.map_values(
                |item: OutlineItem<TextAnchor, X>| item_in(self.excerpts@, i as int, item),
            ),
    {
        let ghost es = self.excerpts@;
        let ghost all = items@.map_values(
            |item: OutlineItem<TextAnchor, X>| item_in(self.excerpts@, i as int, item),
        );
        let excerpt = &self.excerpts[i];
        let mut r: Vec<OutlineItem<Anchor, X>> = Vec::new();
        let mut k: usize = 0;
        assert(es[i as int].wf());
        while k < items.len()
            invariant
                es == self.excerpts@,
                i < es.len(),
                *excerpt == es[i as int],
                excerpt.wf(),
                k <= items@.len(),
                all.len() == items@.len(),
                forall|k: int|
                    0 <= k < all.len() ==> #[trigger] all[k] == item_in(es, i as int, items@[k]),
                r@ == all.take(k as int),
            decreases items@.len() - k,
        {
            let item = &items[k];
            let new_item = OutlineItem {
                depth: item.depth,
                range: excerpt.anchors(&item.range),
                body_range: match &item.body_range {
                    Some(range) => Some(excerpt.anchors(range)),
                    None => None,
                },
                annotation_range: match &item.annotation_range {
                    Some(range) => Some(excerpt.anchors(range)),
                    None => None,
                },
                content: share(&item.content),
            };
            assert(new_item == all[k as int]);
            r.push(new_item);
            assert(r@ =~= all.take(k + 1));
            k = k + 1;
        }
        assert(all.take(all.len() as int) =~= all);
        r
    }

    /// The outline of the only buffer. The buffer has replied with its outline.
    pub fn outline<X>(&self, items: &Option<Vec<OutlineItem<TextAnchor, X>>>) -> (r: Option<
        Vec<OutlineItem<Anchor, X>>,
    >)
        requires
            self.wf(),
        ensures
            match r {
                Some(r) => {
                    &&& self.shows_single()
                    &&& *items matches Some(items) && r@ == items@.map_values(
                        |item: OutlineItem<TextAnchor, X>| item_in(self.excerpts@, 0, item),
                    )
                },
                None => !self.shows_single() || *items is None,
            },
    {
        if self.singleton && self.excerpts.len() > 0 {
            match items {
                Some(items) => Some(self.items_in(0, items)),
                None => None,
            }
        } else {
            None
        }
    }

    /// Which buffer to ask for the symbols around a position, and where.
    pub fn symbols_query<T: ToOffset>(&self, offset: T) -> (r: Option<(BufferId, TextAnchor)>)
        requires
            self.wf(),
            offset.is_position(*self),
        ensures
            ({
                let anchor = self.anchor_at_offset(offset.offset(*self) as usize, Bias::Left);
                r == if self.has_excerpt(anchor.excerpt_id) {
                    Some(
                        (
                            self.excerpts@[self.index_for(anchor.excerpt_id)].buffer_id,
                            anchor.text_anchor,
                        ),
                    )
                } else {
                    None
                }
            }),
    {
        let anchor = self.anchor_before(offset);
        match self.excerpt(anchor.excerpt_id) {
            Some(excerpt) => Some((excerpt.buffer_id, anchor.text_anchor)),
            None => None,
        }
    }

    /// The symbols around a position, and their buffer. The buffer has replied with
    /// the symbols around the position that it was asked for.
    pub fn symbols_containing<T: ToOffset, X>(
        &self,
        offset: T,
        symbols: &Vec<OutlineItem<TextAnchor, X>>,
    ) -> (r: Option<(BufferId, Vec<OutlineItem<Anchor, X>>)>)
        requires
            self.wf(),
            offset.is_position(*self),
        ensures
            ({
                let anchor = self.anchor_at_offset(offset.offset(*self) as usize, Bias::Left);
                let i = self.index_for(anchor.excerpt_id);
                match r {
                    Some((buffer_id, items)) => {
                        &&& self.has_excerpt(anchor.excerpt_id)
                        &&& buffer_id == self.excerpts@[i].buffer_id
                        &&& items@ == symbols@.map_values(
                            |item: OutlineItem<TextAnchor, X>| item_in(self.excerpts@, i, item),
                        )
                    },
                    None => !self.has_excerpt(anchor.excerpt_id),
                }
            }),
    {
        let anchor = self.anchor_before(offset);
        let i: usize = self.index_for_id(anchor.excerpt_id);
        if i < self.excerpts.len() && self.excerpts[i].id.0 == anchor.excerpt_id.0 {
            Some((self.excerpts[i].buffer_id, self.items_in(i, symbols)))
        } else {
            None
        }
    }

    /// The buffer to ask for diagnostics, and the range to ask for: only of a
    /// single buffer are diagnostics shown.
    pub fn diagnostics_in_range<T: ToOffset>(&self, range: Range<T>) -> (r: Option<
        (BufferId, Range<usize>),
    >)
        requires
            self.wf(),
            self.is_range(range),
        ensures
            r == if self.shows_single() {
                Some(
                    (
                        self.excerpts@[0].buffer_id,
                        Range {
                            start: range.start.offset(*self) as usize,
                            end: range.end.offset(*self) as usize,
                        },
                    ),
                )
            } else {
                None
            },
    {
        if self.singleton && self.excerpts.len() > 0 {
            let start: usize = range.start.to_offset(self);
            let end: usize = range.end.to_offset(self);
            Some((self.excerpts[0].buffer_id, start..end))
        } else {
            None
        }
    }

    /// The buffer to ask for a group of diagnostics.
    pub fn diagnostic_group(&self) -> (r: Option<BufferId>)
        ensures
            r == if self.shows_single() {
                Some(self.excerpts@[0].buffer_id)
            } else {
                None
            },
    {
        match self.as_singleton() {
            Some((_, buffer_id, _)) => Some(buffer_id),
            None => None,
        }
    }
}

/// A selection that a collaborator made in a buffer.
#[derive(Clone, Copy, Debug)]
pub struct RemoteSelection<T, G, C> {
    pub replica_id: u16,
    pub line_mode: bool,
    pub cursor_shape: C,
    pub selection: Selection<T, G>,
}

/// The part of an excerpt that a range asks for.
pub open spec fn query_of(e: Excerpt, range: Range<Anchor>) -> Range<TextAnchor> {
    Range {
        start: if e.id == range.start.excerpt_id {
            range.start.text_anchor
        } else {
            e.range.context.start
        },
        end: if e.id == range.end.excerpt_id {
            range.end.text_anchor
        } else {
            e.range.context.end
        },
    }
}

impl MultiBufferSnapshot {
    /// A selection in the `i`-th excerpt, cut to a range of the multibuffer.
    pub open spec fn cut_selection<G, C>(
        &self,
        i: int,
        range: Range<Anchor>,
        selection: RemoteSelection<TextAnchor, G, C>,
    ) -> RemoteSelection<Anchor, G, C> {
        let e = self.excerpts@[i];
        let start = Anchor {
            buffer_id: Some(e.buffer_id),
            excerpt_id: e.id,
            text_anchor: selection.selection.start,
        };
        let end = Anchor {
            buffer_id: Some(e.buffer_id),
            excerpt_id: e.id,
            text_anchor: selection.selection.end,
        };
        RemoteSelection {
            replica_id: selection.replica_id,
            line_mode: selection.line_mode,
            cursor_shape: selection.cursor_shape,
            selection: Selection {
                id: selection.selection.id,
                start: if self.anchor_before_anchor(start, range.start) {
                    range.start
                } else {
                    start
                },
                end: if self.anchor_before_anchor(range.end, end) {
                    range.end
                } else {
                    end
                },
                reversed: selection.selection.reversed,
                goal: selection.selection.goal,
            },
        }
    }

    /// The selections that the excerpts from `from` to before `to` have been asked
    /// for, cut to a range of the multibuffer.
    pub open spec fn cut_selections<G, C>(
        &self,
        from: int,
        to: int,
        range: Range<Anchor>,
        replies: Seq<Vec<RemoteSelection<TextAnchor, G, C>>>,
    ) -> Seq<RemoteSelection<Anchor, G, C>>
        decreases to - from,
    {
        if to <= from {
            seq![]
        } else {
            self.cut_selections(from, to - 1, range, replies) + replies[to - 1
                - from]@.map_values(
                |selection: RemoteSelection<TextAnchor, G, C>|
                    self.cut_selection(to - 1, range, selection),
            )
        }
    }

    /// Which buffers to ask for the selections in a range, and in which parts of
    /// them.
    pub fn selection_queries(&self, range: &Range<Anchor>) -> (r: Vec<
        (BufferId, Range<TextAnchor>),
    >)
        requires
            self.wf(),
            self.knows_id(range.start.excerpt_id),
            self.knows_id(range.end.excerpt_id),
        ensures
            ({
                let from = self.index_for(range.start.excerpt_id);
                let to = self.index_behind(range.end.excerpt_id);
                &&& r@.len() == count_between(from, to)
                &&& forall|k: int|
                    0 <= k < r@.len() ==> #[trigger] r@[k] == (
                        self.excerpts@[from + k].buffer_id,
                        query_of(self.excerpts@[from + k], *range),
                    )
            }),
    {
        let start_locator = self.excerpt_locator_for_id(range.start.excerpt_id);
        let end_locator = self.excerpt_locator_for_id(range.end.excerpt_id);
        let from: usize = self.seek_locator(&start_locator, Bias::Left);
        let to: usize = self.seek_locator(&end_locator, Bias::Right);
        let mut r: Vec<(BufferId, Range<TextAnchor>)> = Vec::new();
        let mut i: usize = from;
        while i < to
            invariant
                from <= i,
                i <= to || i == from,
                to <= self.excerpts@.len(),
                r@.len() == i - from,
                forall|k: int|
                    0 <= k < r@.len() ==> #[trigger] r@[k] == (
                        self.excerpts@[from + k].buffer_id,
                        query_of(self.excerpts@[from + k], *range),
                    ),
            decreases to - i,
        {
            let excerpt = &self.excerpts[i];
            let start = if excerpt.id.0 == range.start.excerpt_id.0 {
                range.start.text_anchor
            } else {
                excerpt.range.context.start
            };
            let end = if excerpt.id.0 == range.end.excerpt_id.0 {
                range.end.text_anchor
            } else {
                excerpt.range.context.end
            };
            r.push((excerpt.buffer_id, start..end));
            i = i + 1;
        }
        r
    }

    /// The selections of collaborators in a range. The buffers that were asked have
    /// replied with their selections, in the same order.
    pub fn selections_in_range<G: Copy, C: Copy>(
        &self,
        range: &Range<Anchor>,
        selections: &Vec<Vec<RemoteSelection<TextAnchor, G, C>>>,
    ) -> (r: Vec<RemoteSelection<Anchor, G, C>>)
        requires
            self.wf(),
            self.knows_id(range.start.excerpt_id),
            self.knows_id(range.end.excerpt_id),
            selections@.len() == count_between(
                self.index_for(range.start.excerpt_id),
                self.index_behind(range.end.excerpt_id),
            ),
        ensures
            r@ == self.cut_selections(
                self.index_for(range.start.excerpt_id),
                self.index_behind(range.end.excerpt_id),
                *range,
                selections@,
            ),
    {
        let start_locator = self.excerpt_locator_for_id(range.start.excerpt_id);
        let end_locator = self.excerpt_locator_for_id(range.end.excerpt_id);
        let from: usize = self.seek_locator(&start_locator, Bias::Left);
        let to: usize = self.seek_locator(&end_locator, Bias::Right);
        let mut r: Vec<RemoteSelection<Anchor, G, C>> = Vec::new();
        let mut i: usize = from;
        while i < to
            invariant
                self.wf(),
                from <= i,
                i <= to || i == from,
                to <= self.excerpts@.len(),
                selections@.len() == count_between(from as int, to as int),
                r@ == self.cut_selections(from as int, i as int, *range, selections@),
            decreases to - i,
        {
            let ghost before = r@;
            let excerpt = &self.excerpts[i];
            let of_buffer = &selections[i - from];
            let ghost all = of_buffer@.map_values(
                |selection: RemoteSelection<TextAnchor, G, C>|
                    self.cut_selection(i as int, *range, selection),
            );
            let mut k: usize = 0;
            assert(before + all.take(0) =~= before);
            while k < of_buffer.len()
                invariant
                    self.wf(),
                    i < self.excerpts@.len(),
                    *excerpt == self.excerpts@[i as int],
                    k <= of_buffer@.len(),
                    all.len() == of_buffer@.len(),
                    forall|k: int|
                        0 <= k < all.len() ==> #[trigger] all[k] == self.cut_selection(
                            i as int,
                            *range,
                            of_buffer@[k],
                        ),
                    r@ == before + all.take(k as int),
                decreases of_buffer@.len() - k,
            {
                let selection = of_buffer[k];
                let mut start = Anchor {
                    buffer_id: Some(excerpt.buffer_id),
                    excerpt_id: excerpt.id,
                    text_anchor: selection.selection.start,
                };
                let mut end = Anchor {
                    buffer_id: Some(excerpt.buffer_id),
                    excerpt_id: excerpt.id,
                    text_anchor: selection.selection.end,
                };
                if self.is_anchor_before(&start, &range.start) {
                    start = range.start;
                }
                if self.is_anchor_before(&range.end, &end) {
                    end = range.end;
                }
                r.push(
                    RemoteSelection {
                        replica_id: selection.replica_id,
                        line_mode: selection.line_mode,
                        cursor_shape: selection.cursor_shape,
                        selection: Selection {
                            id: selection.selection.id,
                            start,
                            end,
                            reversed: selection.selection.reversed,
                            goal: selection.selection.goal,
                        },
                    },
                );
                assert(r@ =~= before + all.take(k + 1));
                k = k + 1;
            }
            assert(all.take(all.len() as int) =~= all);
            i = i + 1;
        }
        r
    }
}

} // verus!
