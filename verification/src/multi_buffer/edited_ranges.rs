//! Where a transaction edited a multibuffer.

use std::ops::Range;
use vstd::prelude::*;

use crate::buffer::BufferId;
use crate::excerpt::{excerpt_start, lemma_excerpts_text_split, lemma_excerpts_text_step, Excerpt};
use crate::history::{first_with_id, TransactionId, TransactionModel};
use crate::multi_buffer::MultiBuffer;
use crate::snapshot::MultiBufferSnapshot;
use crate::sorting::{in_order, lemma_in_order, lemma_in_order_from, sort, Sortable};
use crate::text::{summarize, TextDimension};

verus! {

impl Sortable<()> for Range<usize> {
    open spec fn comparable(context: ()) -> bool {
        true
    }

    open spec fn belongs_before(self, other: Self, context: ()) -> bool {
        self.start < other.start
    }

    fn is_before(&self, other: &Self, context: &()) -> (r: bool) {
        self.start < other.start
    }

    proof fn lemma_weak_order(a: Self, b: Self, c: Self, context: ()) {
    }
}

/// Whether an excerpt shows both ends of a range of a buffer.
pub open spec fn shows_range(e: Excerpt, buffer_id: BufferId, range: Range<usize>) -> bool {
    &&& e.buffer_id == buffer_id
    &&& e.start() <= range.start < e.end()
    &&& e.start() <= range.end < e.end()
}

/// The first excerpt from `from` on that shows both ends of a range of a buffer.
pub open spec fn showing_index(
    es: Seq<Excerpt>,
    buffer_id: BufferId,
    range: Range<usize>,
    from: int,
) -> int
    decreases es.len() - from,
{
    if from >= es.len() {
        es.len() as int
    } else if shows_range(es[from], buffer_id, range) {
        from
    } else {
        showing_index(es, buffer_id, range, from + 1)
    }
}

/// Where the ranges of a buffer lie in the multibuffer, as far as an excerpt
/// shows them.
pub open spec fn shown_ranges(
    es: Seq<Excerpt>,
    buffer_id: BufferId,
    ranges: Seq<Range<usize>>,
) -> Seq<Range<usize>>
    decreases ranges.len(),
{
    if ranges.len() == 0 {
        seq![]
    } else {
        let front = shown_ranges(es, buffer_id, ranges.drop_last());
        let range = ranges.last();
        let i = showing_index(es, buffer_id, range, 0);
        if i < es.len() {
            front.push(
                Range {
                    start: (excerpt_start(es, i) + range.start - es[i].start()) as usize,
                    end: (excerpt_start(es, i) + range.end - es[i].start()) as usize,
                },
            )
        } else {
            front
        }
    }
}

/// Where the ranges of several buffers lie in the multibuffer.
pub open spec fn all_shown_ranges(
    es: Seq<Excerpt>,
    entries: Seq<(BufferId, TransactionId)>,
    edited: Seq<Vec<Range<usize>>>,
) -> Seq<Range<usize>>
    decreases entries.len(),
{
    if entries.len() == 0 {
        seq![]
    } else {
        all_shown_ranges(es, entries.drop_last(), edited) + shown_ranges(
            es,
            entries.last().0,
            edited[entries.len() - 1]@,
        )
    }
}

/// Whether ranges measure what the multibuffer measures up to both ends of
/// ranges of offsets.
pub open spec fn measure_ranges<D: TextDimension>(
    measured: Seq<Range<D>>,
    text: Seq<u8>,
    ranges: Seq<Range<usize>>,
) -> bool {
    &&& measured.len() == ranges.len()
    &&& forall|k: int|
        0 <= k < ranges.len() ==> {
            &&& (#[trigger] measured[k]).start.measures(
                summarize(text.take(ranges[k].start as int)),
            )
            &&& measured[k].end.measures(summarize(text.take(ranges[k].end as int)))
        }
}

/// Whether ranges lie within a text of this length.
pub open spec fn ranges_fit(ranges: Seq<Range<usize>>, len: int) -> bool {
    forall|k: int|
        0 <= k < ranges.len() ==> (#[trigger] ranges[k]).start <= len && ranges[k].end <= len
}

impl MultiBufferSnapshot {
    /// Measures the multibuffer up to both ends of each range.
    fn measure_ranges<D: TextDimension>(&self, ranges: &Vec<Range<usize>>) -> (r: Vec<Range<D>>)
        requires
            self.wf(),
            ranges_fit(ranges@, self.bytes().len() as int),
        ensures
            measure_ranges(r@, self.bytes(), ranges@),
    {
        let mut r: Vec<Range<D>> = Vec::new();
        let mut k: usize = 0;
        while k < ranges.len()
            invariant
                self.wf(),
                ranges_fit(ranges@, self.bytes().len() as int),
                k <= ranges@.len(),
                measure_ranges(r@, self.bytes(), ranges@.take(k as int)),
            decreases ranges@.len() - k,
        {
            let ghost before = r@;
            assert(ranges@[k as int].start <= self.bytes().len());
            let start = D::from_text_summary(&self.summary_at(ranges[k].start));
            let end = D::from_text_summary(&self.summary_at(ranges[k].end));
            r.push(start..end);
            assert forall|j: int| 0 <= j < k + 1 implies {
                &&& (#[trigger] r@[j]).start.measures(
                    summarize(self.bytes().take(ranges@.take(k + 1)[j].start as int)),
                )
                &&& r@[j].end.measures(
                    summarize(self.bytes().take(ranges@.take(k + 1)[j].end as int)),
                )
            } by {
                if j < k {
                    assert(before[j].start.measures(
                        summarize(self.bytes().take(ranges@.take(k as int)[j].start as int)),
                    ));
                }
            }
            k = k + 1;
        }
        assert(ranges@.take(ranges@.len() as int) =~= ranges@);
        r
    }

    /// Adds where the ranges of a buffer lie in the multibuffer.
    fn push_shown_ranges(
        &self,
        shown: &mut Vec<Range<usize>>,
        buffer_id: BufferId,
        ranges: &Vec<Range<usize>>,
    )
        requires
            self.wf(),
            ranges_fit(old(shown)@, self.bytes().len() as int),
        ensures
            final(shown)@ == old(shown)@ + shown_ranges(self.excerpts@, buffer_id, ranges@),
            ranges_fit(final(shown)@, self.bytes().len() as int),
    {
        let ghost es = self.excerpts@;
        let ghost before = shown@;
        let mut k: usize = 0;
        assert(ranges@.take(0) =~= Seq::<Range<usize>>::empty());
        assert(before + shown_ranges(es, buffer_id, ranges@.take(0)) =~= before);
        while k < ranges.len()
            invariant
                self.wf(),
                es == self.excerpts@,
                k <= ranges@.len(),
                shown@ == before + shown_ranges(es, buffer_id, ranges@.take(k as int)),
                ranges_fit(shown@, self.bytes().len() as int),
            decreases ranges@.len() - k,
        {
            let range = &ranges[k];
            assert(ranges@.take(k + 1).drop_last() =~= ranges@.take(k as int));
            let mut cursor = self.cursor_start();
            while cursor.index < self.excerpts.len()
                invariant
                    self.wf(),
                    es == self.excerpts@,
                    cursor.wf(es),
                    showing_index(es, buffer_id, *range, 0) == showing_index(
                        es,
                        buffer_id,
                        *range,
                        cursor.index as int,
                    ),
                ensures
                    cursor.wf(es),
                    showing_index(es, buffer_id, *range, 0) == cursor.index,
                decreases es.len() - cursor.index,
            {
                let excerpt = &self.excerpts[cursor.index];
                assert(excerpt.wf());
                let start: usize = excerpt.buffer_start_offset();
                let end: usize = excerpt.buffer_end_offset();
                if excerpt.buffer_id == buffer_id && start <= range.start && range.start < end
                    && start <= range.end && range.end < end {
                    break;
                }
                self.advance(&mut cursor);
            }
            if cursor.index < self.excerpts.len() {
                let i: usize = cursor.index;
                proof {
                    lemma_showing(es, buffer_id, *range, 0);
                    lemma_excerpts_text_step(es, i as int);
                    lemma_excerpts_text_split(es, i + 1);
                    assert(es[i as int].wf());
                }
                let start: usize = self.excerpts[i].buffer_start_offset();
                shown.push(
                    cursor.start.len + (range.start - start)..cursor.start.len + (range.end - start),
                );
            }
            assert(shown@ =~= before + shown_ranges(es, buffer_id, ranges@.take(k + 1)));
            k = k + 1;
        }
        assert(ranges@.take(ranges@.len() as int) =~= ranges@);
    }
}

proof fn lemma_showing(es: Seq<Excerpt>, buffer_id: BufferId, range: Range<usize>, from: int)
    requires
        0 <= from <= es.len(),
    ensures
        ({
            let i = showing_index(es, buffer_id, range, from);
            &&& from <= i <= es.len()
            &&& i < es.len() ==> shows_range(es[i], buffer_id, range)
        }),
    decreases es.len() - from,
{
    if from < es.len() && !shows_range(es[from], buffer_id, range) {
        lemma_showing(es, buffer_id, range, from + 1);
    }
}

impl MultiBuffer {
    /// The transaction with an identifier.
    pub open spec fn transaction_with_id(&self, id: TransactionId) -> Option<TransactionModel> {
        let u = first_with_id(self.history.undo(), id, 0);
        let d = first_with_id(self.history.redo(), id, 0);
        if u < self.history.undo().len() {
            Some(self.history.undo()[u])
        } else if d < self.history.redo().len() {
            Some(self.history.redo()[d])
        } else {
            None
        }
    }

    /// Where a transaction edited the multibuffer, in order. The buffers have
    /// replied with the ranges that their transactions edited: the only buffer,
    /// or those of the transaction, in its order.
    pub fn edited_ranges_for_transaction<D: TextDimension>(
        &self,
        transaction_id: TransactionId,
        edited: &Vec<Vec<Range<usize>>>,
    ) -> (r: Vec<Range<D>>)
        requires
            self.wf(),
            self.singleton ==> edited@.len() == 1 && ranges_fit(
                edited@[0]@,
                self.snapshot.bytes().len() as int,
            ),
            !self.singleton ==> (self.transaction_with_id(transaction_id) matches Some(t)
                ==> edited@.len() == t.buffer_transactions.len()),
        ensures
            self.singleton ==> measure_ranges(r@, self.snapshot.bytes(), edited@[0]@),
            !self.singleton ==> match self.transaction_with_id(transaction_id) {
                Some(t) => measure_ranges(
                    r@,
                    self.snapshot.bytes(),
                    in_order(
                        all_shown_ranges(
                            self.snapshot.excerpts@,
                            t.buffer_transactions,
                            edited@,
                        ),
                        (),
                    ),
                ),
                None => r@.len() == 0,
            },
    {
        if self.singleton {
            return self.snapshot.measure_ranges(&edited[0]);
        }
        let entries = match self.history.transaction(transaction_id) {
            Some(transaction) => &transaction.buffer_transactions,
            None => {
                return Vec::new();
            },
        };
        let ghost es = self.snapshot.excerpts@;
        let ghost len = self.snapshot.bytes().len() as int;
        let mut shown: Vec<Range<usize>> = Vec::new();
        let mut k: usize = 0;
        assert(entries@.take(0) =~= Seq::<(BufferId, TransactionId)>::empty());
        while k < entries.len()
            invariant
                self.wf(),
                es == self.snapshot.excerpts@,
                len == self.snapshot.bytes().len(),
                k <= entries@.len(),
                edited@.len() == entries@.len(),
                shown@ == all_shown_ranges(es, entries@.take(k as int), edited@),
                ranges_fit(shown@, len),
            decreases entries@.len() - k,
        {
            assert(entries@.take(k + 1).drop_last() =~= entries@.take(k as int));
            self.snapshot.push_shown_ranges(&mut shown, entries[k].0, &edited[k]);
            k = k + 1;
        }
        assert(entries@.take(entries@.len() as int) =~= entries@);
        let ghost all = shown@;
        let sorted = sort(shown, &());
        proof {
            lemma_in_order::<(), Range<usize>>(all, ());
            assert forall|m: int| 0 <= m < sorted@.len() implies (#[trigger] sorted@[m]).start
                <= len && sorted@[m].end <= len by {
                lemma_in_order_from::<(), Range<usize>>(all, (), m);
                let n = choose|n: int| 0 <= n < all.len() && all[n] == sorted@[m];
                assert(all[n].start <= len);
            }
        }
        self.snapshot.measure_ranges(&sorted)
    }
}

} // verus!
