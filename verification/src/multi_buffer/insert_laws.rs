//! What holds of excerpts that are put in and taken out.

use std::ops::Range;
use std::sync::Arc;
use vstd::prelude::*;

use crate::buffer::{resolved, BufferSnapshot, ToBufferOffset};
use crate::excerpt::{excerpt_start, excerpts_text, Excerpt, ExcerptId, ExcerptRange};
use crate::excerpt_ranges::counted;
use crate::locator::{digits_before, lemma_order_strict, lemma_order_total, lemma_order_transitive};
use crate::multi_buffer::insert::{
    anchor_range_in, anchored, is_new_excerpt, place_at, place_before, repeated, showable, spliced,
    with_last_newline,
};
use crate::multi_buffer::remove::Removal;
use crate::multi_buffer::removed::{
    kept_of, lemma_kept_all, lemma_kept_concat, lemma_kept_none, lemma_removed_excerpts,
    names_in_order,
};
use crate::multi_buffer::{patched, Edit, Event, MultiBuffer};
use crate::snapshot::ids::lemma_locator_index;
use crate::snapshot::{valid_locator, MultiBufferSnapshot};
use crate::text::Bias;

verus! {

/// Whether two excerpts are the same, but for the line break behind them.
pub open spec fn same_but_newline(a: Excerpt, b: Excerpt) -> bool {
    &&& a.id == b.id
    &&& a.locator == b.locator
    &&& a.buffer_id == b.buffer_id
    &&& a.buffer == b.buffer
    &&& a.range == b.range
    &&& a.bytes() == b.bytes()
}

/// A stretch is held by anchors at its ends, which lean away from it.
pub proof fn lemma_anchored<O: ToBufferOffset>(
    range: ExcerptRange<O>,
    buffer: Arc<BufferSnapshot>,
)
    requires
        buffer.wf(),
        showable(range, *buffer),
    ensures
        ({
            let held = anchored(range, *buffer);
            let len = buffer.bytes().len() as int;
            &&& resolved(held.context.start, len) == range.context.start.offset_in(*buffer)
            &&& resolved(held.context.end, len) == range.context.end.offset_in(*buffer)
            &&& held.context.start.bias is Left
            &&& held.context.end.bias is Right
            &&& held.primary is Some <==> range.primary is Some
        }),
{
}

impl MultiBuffer {
    /// How many excerpts stand before what is put in behind an excerpt: those up to it,
    /// and behind the end of everything all of them.
    pub proof fn lemma_insertion_index(&self, prev_excerpt_id: ExcerptId, i: int)
        requires
            self.wf(),
        ensures
            0 <= self.insertion_index(prev_excerpt_id) <= self.snapshot.excerpts@.len(),
            prev_excerpt_id.0 == 0 ==> self.insertion_index(prev_excerpt_id) == 0,
            prev_excerpt_id.0 == usize::MAX ==> self.insertion_index(prev_excerpt_id)
                == self.snapshot.excerpts@.len(),
            0 <= i < self.snapshot.excerpts@.len() && self.snapshot.excerpts@[i].id
                == prev_excerpt_id ==> self.insertion_index(prev_excerpt_id) == i + 1,
            0 <= i < self.snapshot.excerpts@.len() ==> (digits_before(
                self.snapshot.locator_for(prev_excerpt_id),
                self.snapshot.excerpts@[i].locator@,
            ) <==> i >= self.insertion_index(prev_excerpt_id)),
    {
        let es = self.snapshot.excerpts@;
        let l = self.snapshot.locator_for(prev_excerpt_id);
        let p = self.insertion_index(prev_excerpt_id);
        lemma_locator_index(es, l, Bias::Right, 0);
        self.snapshot.lemma_locator_for(prev_excerpt_id);
        if 0 <= i < es.len() {
            if es[i].id == prev_excerpt_id {
                self.snapshot.lemma_excerpt_id(i);
                self.snapshot.lemma_index_at(i);
            }
            if p < i {
                assert(digits_before(es[p].locator@, es[i].locator@));
                lemma_order_transitive(l, es[p].locator@, es[i].locator@);
            }
        }
        if prev_excerpt_id.0 == 0 && es.len() > 0 {
            assert(valid_locator(es[0].locator@));
            assert(!digits_before(l, es[0].locator@) ==> false) by {
                lemma_order_total(l, es[0].locator@);
            }
        }
        if prev_excerpt_id.0 == usize::MAX && p < es.len() {
            assert(valid_locator(es[p].locator@));
            lemma_order_strict(l, es[p].locator@);
        }
    }

    /// What is shown more stands right behind the excerpt that it was to go behind, in the
    /// order of the ranges: under its identifiers, and showing just the ranges of the
    /// buffer. All other excerpts stay as they were, before it and behind it.
    #[verifier::rlimit(50)]
    pub proof fn lemma_shown_behind<O: ToBufferOffset>(
        &self,
        before: &MultiBuffer,
        prev_excerpt_id: ExcerptId,
        buffer: Arc<BufferSnapshot>,
        ranges: Seq<(ExcerptId, ExcerptRange<O>)>,
        i: int,
    )
        requires
            before.wf(),
            self.wf(),
            before.can_insert(prev_excerpt_id, buffer, ranges),
            ranges.len() > 0,
            self.shows_more(before, prev_excerpt_id, buffer, ranges),
            0 <= i < self.snapshot.excerpts@.len(),
        ensures
            ({
                let es = before.snapshot.excerpts@;
                let all = self.snapshot.excerpts@;
                let p = before.insertion_index(prev_excerpt_id);
                let n = ranges.len() as int;
                &&& all.len() == es.len() + n
                &&& i < p ==> same_but_newline(all[i], es[i])
                &&& i >= p + n ==> all[i] == es[i - n]
                &&& p <= i < p + n ==> {
                    let range = ranges[i - p].1.context;
                    &&& all[i].id == ranges[i - p].0
                    &&& all[i].buffer_id == buffer.remote_id
                    &&& all[i].buffer == buffer
                    &&& all[i].start() == range.start.offset_in(*buffer)
                    &&& all[i].end() == range.end.offset_in(*buffer)
                    &&& all[i].bytes() == buffer.bytes().subrange(
                        range.start.offset_in(*buffer),
                        range.end.offset_in(*buffer),
                    )
                }
            }),
    {
        reveal(spliced);
        let es = before.snapshot.excerpts@;
        let all = self.snapshot.excerpts@;
        let p = before.insertion_index(prev_excerpt_id);
        let n = ranges.len() as int;
        let news = all.subrange(p, p + n);
        before.lemma_insertion_index(prev_excerpt_id, 0);
        let head = with_last_newline(es.take(p), true);
        assert(all == head + news + es.skip(p));
        if i < p {
            assert(all[i] == head[i]);
            assert(es.take(p)[i] == es[i]);
        } else if i < p + n {
            let k = i - p;
            assert(news[k] == all[i]);
            lemma_anchored(ranges[k].1, buffer);
        } else {
            assert(all[i] == es.skip(p)[i - p - n]);
        }
    }
}

impl MultiBuffer {
    /// What is shown more is announced: under which buffer, behind which excerpt, and each
    /// new excerpt with its identifier and its stretch, in order. Nothing is taken back that
    /// was announced before. The count of changes at the end grows just where it is shown
    /// behind all excerpts.
    pub proof fn lemma_insertion_announced<O: ToBufferOffset>(
        &self,
        before: &MultiBuffer,
        prev_excerpt_id: ExcerptId,
        buffer: Arc<BufferSnapshot>,
        ranges: Seq<(ExcerptId, ExcerptRange<O>)>,
        k: int,
    )
        requires
            before.wf(),
            ranges.len() > 0,
            self.shows_more(before, prev_excerpt_id, buffer, ranges),
            0 <= k < ranges.len(),
        ensures
            self.events@.len() == before.events@.len() + 2,
            self.events@.take(before.events@.len() as int) == before.events@,
            self.events@[before.events@.len() as int] is Edited,
            self.events@.last() matches Event::ExcerptsAdded {
                buffer: added_to,
                predecessor,
                excerpts,
            } && added_to == buffer.remote_id && predecessor == prev_excerpt_id && excerpts@.len()
                == ranges.len() && excerpts@[k].0 == ranges[k].0 && excerpts@[k].1 == anchored(
                ranges[k].1,
                *buffer,
            ),
            self.snapshot.trailing_excerpt_update_count
                == before.snapshot.trailing_excerpt_update_count + if before.insertion_index(
                prev_excerpt_id,
            ) == before.snapshot.excerpts@.len() {
                1int
            } else {
                0int
            },
    {
        let p = before.insertion_index(prev_excerpt_id);
        let news = self.snapshot.excerpts@.subrange(p, p + ranges.len());
        before.lemma_insertion_index(prev_excerpt_id, 0);
        assert(is_new_excerpt(
            news[k],
            k,
            ranges,
            buffer,
            place_before(before.snapshot.excerpts@, p),
            place_at(before.snapshot.excerpts@, p),
            p < before.snapshot.excerpts@.len(),
        ));
    }

    /// What is removed is announced: the identifiers that were named, and the edits that
    /// turn the text before into the text after, which only delete.
    pub proof fn lemma_removal_announced(&self, before: &MultiBuffer, ids: Seq<ExcerptId>)
        requires
            before.wf(),
            ids.len() > 0,
            names_in_order(before.snapshot, ids),
            self.has_removed(before, ids),
        ensures
            self.events@.len() == before.events@.len() + 2,
            self.events@.take(before.events@.len() as int) == before.events@,
            self.events@[before.events@.len() as int] is Edited,
            self.events@.last() matches Event::ExcerptsRemoved { ids: removed } && removed@ == ids,
            self.published@.len() == before.published@.len() + 1,
            patched(
                before.snapshot.bytes(),
                self.snapshot.bytes(),
                self.published@[before.published@.len() as int]@,
            ),
            only_delete(self.published@[before.published@.len() as int]@),
            self.snapshot.excerpt_ids@ == before.snapshot.excerpt_ids@,
    {
        lemma_removed_excerpts(before.snapshot, ids);
        lemma_removal_keeps_others(before.snapshot, ids);
    }
}

/// A range of a buffer is returned as the same range, in the excerpt that shows it.
pub proof fn lemma_anchor_range<O: ToBufferOffset>(
    range: Range<O>,
    buffer: Arc<BufferSnapshot>,
    excerpt_id: ExcerptId,
)
    requires
        buffer.wf(),
        0 <= range.start.offset_in(*buffer) <= buffer.bytes().len(),
        0 <= range.end.offset_in(*buffer) <= buffer.bytes().len(),
    ensures
        ({
            let r = anchor_range_in(range, *buffer, excerpt_id);
            let len = buffer.bytes().len() as int;
            &&& r.start.excerpt_id == excerpt_id
            &&& r.end.excerpt_id == excerpt_id
            &&& r.start.buffer_id == Some(buffer.remote_id)
            &&& r.end.buffer_id == Some(buffer.remote_id)
            &&& resolved(r.start.text_anchor, len) == range.start.offset_in(*buffer)
            &&& resolved(r.end.text_anchor, len) == range.end.offset_in(*buffer)
            &&& r.start.text_anchor.bias is Right
            &&& r.end.text_anchor.bias is Right
        }),
{
}

/// An identifier that stands for several ranges stands for those that its stretch counts.
pub proof fn lemma_repeated(ids: Seq<ExcerptId>, counts: Seq<usize>, g: int, k: int)
    requires
        ids.len() == counts.len(),
        0 <= g < ids.len(),
        counted(counts, g) <= k < counted(counts, g + 1),
    ensures
        0 <= k < repeated(ids, counts).len(),
        repeated(ids, counts)[k] == ids[g],
{
    let n = ids.len() as int;
    lemma_repeated_at(ids, counts, n, g, k);
    assert(ids.take(n) =~= ids);
    assert(counts.take(n) =~= counts);
}

proof fn lemma_repeated_at(ids: Seq<ExcerptId>, counts: Seq<usize>, n: int, g: int, k: int)
    requires
        ids.len() == counts.len(),
        0 <= n <= ids.len(),
        0 <= g < ids.len(),
        counted(counts, g) <= k < counted(counts, g + 1),
    ensures
        repeated(ids.take(n), counts.take(n)).len() == counted(counts, n),
        0 <= counted(counts, n),
        g < n ==> k < counted(counts, n) && repeated(ids.take(n), counts.take(n))[k] == ids[g],
        n <= g ==> counted(counts, n) <= counted(counts, g),
        0 <= k,
    decreases n, g,
{
    if n > 0 {
        lemma_repeated_at(ids, counts, n - 1, g, k);
        assert(ids.take(n).drop_last() =~= ids.take(n - 1));
        assert(counts.take(n).drop_last() =~= counts.take(n - 1));
    }
    lemma_counted_grows(counts, n, g);
    lemma_counted_grows(counts, 0, g);
}

proof fn lemma_counted_grows(counts: Seq<usize>, a: int, b: int)
    requires
        0 <= a,
    ensures
        a <= b ==> counted(counts, a) <= counted(counts, b),
    decreases b - a,
{
    if a < b {
        lemma_counted_grows(counts, a, b - 1);
    }
}

/// What is kept is just what no identifier names, in the same order.
pub proof fn lemma_kept(es: Seq<Excerpt>, ids: Seq<ExcerptId>)
    ensures
        kept_of(es, ids) == es.filter(|e: Excerpt| !ids.contains(e.id)),
    decreases es.len(),
{
    reveal(Seq::filter);
    if es.len() > 0 {
        lemma_kept(es.drop_last(), ids);
    } else {
        assert(kept_of(es, ids) =~= es.filter(|e: Excerpt| !ids.contains(e.id)));
    }
}

/// Whether edits put nothing in.
pub open spec fn only_delete(edits: Seq<Edit>) -> bool {
    forall|a: int| 0 <= a < edits.len() ==> (#[trigger] edits[a]).new.start == edits[a].new.end
}

proof fn lemma_removal_deletes(
    snapshot: MultiBufferSnapshot,
    ids: Seq<ExcerptId>,
    k: int,
    done: Removal,
)
    requires
        only_delete(done.edits),
    ensures
        only_delete(snapshot.removal(ids, k, done).edits),
    decreases ids.len() - k,
{
    let es = snapshot.excerpts@;
    let i = snapshot.removal_index(ids, k, done.at);
    let kept = done.kept + es.subrange(done.at, i);
    if k >= ids.len() {
    } else if i < es.len() && es[i].id == ids[k] {
        let m = snapshot.run_len(ids, i, k);
        if m <= 0 || k + m > ids.len() {
        } else {
            let cuts_newline = i + m == es.len() && excerpt_start(es, i) > 0;
            let new_kept = if cuts_newline {
                with_last_newline(kept, false)
            } else {
                kept
            };
            let old_start = excerpt_start(es, i) - if cuts_newline {
                1int
            } else {
                0int
            };
            let new_start = excerpts_text(new_kept).len() as usize;
            let edit = Edit {
                old: Range {
                    start: old_start as usize,
                    end: excerpt_start(es, i + m) as usize,
                },
                new: Range { start: new_start, end: new_start },
            };
            let next = Removal { kept: new_kept, edits: done.edits.push(edit), at: i + m };
            assert(snapshot.removal(ids, k, done) == snapshot.removal(ids, k + m, next));
            lemma_removal_deletes(snapshot, ids, k + m, next);
        }
    } else {
        lemma_removal_deletes(
            snapshot,
            ids,
            k + 1,
            Removal { kept, edits: done.edits, at: i },
        );
    }
}

/// Removing excerpts, named in order, keeps just those that no identifier names, each as
/// it was but for the line break behind the last; and is told by edits that only delete.
pub proof fn lemma_removal_keeps_others(snapshot: MultiBufferSnapshot, ids: Seq<ExcerptId>)
    requires
        snapshot.wf(),
        names_in_order(snapshot, ids),
    ensures
        ({
            let kept = snapshot.excerpts@.filter(|e: Excerpt| !ids.contains(e.id));
            let left = snapshot.remaining(ids);
            let edits = snapshot.removal_of(ids).edits;
            &&& left.len() == kept.len()
            &&& forall|i: int|
                0 <= i < left.len() ==> same_but_newline(#[trigger] left[i], kept[i])
            &&& left.len() > 0 ==> !left.last().has_trailing_newline
            &&& only_delete(edits)
        }),
{
    lemma_removed_excerpts(snapshot, ids);
    lemma_kept(snapshot.excerpts@, ids);
    lemma_removal_deletes(
        snapshot,
        ids,
        0,
        Removal { kept: seq![], edits: seq![], at: 0 },
    );
    let kept = kept_of(snapshot.excerpts@, ids);
    let left = snapshot.remaining(ids);
    assert forall|i: int| 0 <= i < left.len() implies same_but_newline(
        #[trigger] left[i],
        kept[i],
    ) by {}
}

/// Whether identifiers stand in the order of their places, and each names an excerpt that is
/// there, or one that is gone and whose place no other has taken.
pub open spec fn names_known(snapshot: MultiBufferSnapshot, ids: Seq<ExcerptId>) -> bool {
    &&& forall|k: int, l: int|
        0 <= k < l < ids.len() ==> snapshot.index_for(#[trigger] ids[k]) <= snapshot.index_for(
            #[trigger] ids[l],
        )
    &&& forall|k: int, i: int|
        0 <= k < ids.len() && 0 <= i < snapshot.excerpts@.len() && (
        #[trigger] snapshot.excerpts@[i]).locator@ == snapshot.locator_for(#[trigger] ids[k])
            ==> snapshot.excerpts@[i].id == ids[k]
}

/// A run of excerpts that go is named by as many identifiers.
proof fn lemma_known_run(snapshot: MultiBufferSnapshot, ids: Seq<ExcerptId>, i: int, k: int)
    requires
        snapshot.wf(),
        names_known(snapshot, ids),
        0 <= k < ids.len(),
        0 <= i < snapshot.excerpts@.len(),
        snapshot.excerpts@[i].id == ids[k],
    ensures
        ({
            let m = snapshot.run_len(ids, i, k);
            &&& 1 <= m <= ids.len() - k
            &&& i + m <= snapshot.excerpts@.len()
            &&& forall|j: int|
                0 <= j < m ==> snapshot.excerpts@[i + j].id == #[trigger] ids[k + j]
        }),
    decreases ids.len() - k,
{
    let es = snapshot.excerpts@;
    if k + 1 < ids.len() && i + 1 < es.len() && es[i + 1].locator@ == snapshot.locator_for(
        ids[k + 1],
    ) {
        assert(es[i + 1].id == ids[k + 1]);
        lemma_known_run(snapshot, ids, i + 1, k + 1);
        let m = snapshot.run_len(ids, i, k);
        assert forall|j: int| 0 <= j < m implies es[i + j].id == #[trigger] ids[k + j] by {
            if j > 0 {
                assert(ids[(k + 1) + (j - 1)] == ids[k + j]);
            }
        }
    }
}

/// Whether what a removal kept so far is what no identifier names of the excerpts before
/// the `at`-th, but for the line break behind the last.
spec fn has_kept(
    snapshot: MultiBufferSnapshot,
    ids: Seq<ExcerptId>,
    k: int,
    done: Removal,
) -> bool {
    let es = snapshot.excerpts@;
    let kept = kept_of(es.take(done.at), ids);
    &&& 0 <= k <= ids.len()
    &&& 0 <= done.at <= es.len()
    &&& done.kept == kept || done.at == es.len() && done.kept == with_last_newline(kept, false)
    &&& forall|l: int|
        0 <= l < k && snapshot.has_excerpt(#[trigger] ids[l]) ==> snapshot.index_for(ids[l])
            < done.at
}

/// No identifier names an excerpt from the `from`-th to before the `to`-th.
proof fn lemma_none_named(
    snapshot: MultiBufferSnapshot,
    ids: Seq<ExcerptId>,
    k: int,
    from: int,
    to: int,
)
    requires
        snapshot.wf(),
        names_known(snapshot, ids),
        0 <= k < ids.len(),
        0 <= from <= to <= snapshot.excerpts@.len(),
        from < to ==> to <= snapshot.index_for(ids[k]),
        forall|l: int|
            0 <= l < k && snapshot.has_excerpt(#[trigger] ids[l]) ==> snapshot.index_for(ids[l])
                < from,
    ensures
        kept_of(snapshot.excerpts@.take(to), ids) == kept_of(snapshot.excerpts@.take(from), ids)
            + snapshot.excerpts@.subrange(from, to),
{
    let es = snapshot.excerpts@;
    let part = es.subrange(from, to);
    assert forall|i: int| 0 <= i < part.len() implies !ids.contains((#[trigger] part[i]).id) by {
        if ids.contains(part[i].id) {
            let l = choose|l: int| 0 <= l < ids.len() && ids[l] == part[i].id;
            snapshot.lemma_excerpt_found(ids[l], from + i);
            if k < l {
                assert(snapshot.index_for(ids[k]) <= snapshot.index_for(ids[l]));
            }
        }
    }
    lemma_kept_all(part, ids);
    lemma_kept_concat(es.take(from), part, ids);
    assert(es.take(from) + part =~= es.take(to));
}

#[verifier::rlimit(50)]
proof fn lemma_known_removal(
    snapshot: MultiBufferSnapshot,
    ids: Seq<ExcerptId>,
    k: int,
    done: Removal,
)
    requires
        snapshot.wf(),
        names_known(snapshot, ids),
        has_kept(snapshot, ids, k, done),
    ensures
        has_kept(snapshot, ids, ids.len() as int, snapshot.removal(ids, k, done)),
    decreases ids.len() - k,
{
    let es = snapshot.excerpts@;
    if k < ids.len() {
        let at = done.at;
        let i = snapshot.removal_index(ids, k, at);
        snapshot.lemma_locator_for(ids[k]);
        let kept = done.kept + es.subrange(at, i);
        lemma_none_named(snapshot, ids, k, at, i);
        if at == es.len() {
            assert(es.subrange(at, i) =~= Seq::<Excerpt>::empty());
            assert(kept =~= done.kept);
        }
        if i < es.len() && es[i].id == ids[k] {
            snapshot.lemma_excerpt_found(ids[k], i);
            lemma_known_run(snapshot, ids, i, k);
            let m = snapshot.run_len(ids, i, k);
            let cuts_newline = i + m == es.len() && excerpt_start(es, i) > 0;
            let new_kept = if cuts_newline {
                with_last_newline(kept, false)
            } else {
                kept
            };
            let old_start = excerpt_start(es, i) - if cuts_newline {
                1int
            } else {
                0int
            };
            let new_start = excerpts_text(new_kept).len() as usize;
            let edit = Edit {
                old: Range {
                    start: old_start as usize,
                    end: excerpt_start(es, i + m) as usize,
                },
                new: Range { start: new_start, end: new_start },
            };
            let next = Removal { kept: new_kept, edits: done.edits.push(edit), at: i + m };
            let run = es.subrange(i, i + m);
            assert forall|j: int| 0 <= j < run.len() implies ids.contains(
                (#[trigger] run[j]).id,
            ) by {
                assert(es[i + j].id == ids[k + j]);
            }
            lemma_kept_none(run, ids);
            lemma_kept_concat(es.take(i), run, ids);
            assert(es.take(i) + run =~= es.take(i + m));
            assert(kept_of(es.take(i + m), ids) =~= kept);
            assert forall|l: int|
                0 <= l < k + m && snapshot.has_excerpt(
                    #[trigger] ids[l],
                ) implies snapshot.index_for(ids[l]) < i + m by {
                if l >= k {
                    assert(es[i + (l - k)].id == ids[k + (l - k)]);
                    snapshot.lemma_excerpt_found(ids[l], i + (l - k));
                }
            }
            assert(has_kept(snapshot, ids, k + m, next));
            assert(snapshot.removal(ids, k, done) == snapshot.removal(ids, k + m, next));
            lemma_known_removal(snapshot, ids, k + m, next);
        } else {
            let next = Removal { kept, edits: done.edits, at: i };
            assert forall|l: int|
                0 <= l < k + 1 && snapshot.has_excerpt(
                    #[trigger] ids[l],
                ) implies snapshot.index_for(ids[l]) < i by {
                if l < k {
                    assert(snapshot.index_for(ids[l]) < at);
                }
            }
            assert(has_kept(snapshot, ids, k + 1, next));
            lemma_known_removal(snapshot, ids, k + 1, next);
        }
    }
}

/// Removing excerpts keeps just those that no identifier names, in their order, also where
/// some of the identifiers name excerpts that are gone, as long as no other has taken the
/// place of one of those.
pub proof fn lemma_removal_of_known(snapshot: MultiBufferSnapshot, ids: Seq<ExcerptId>)
    requires
        snapshot.wf(),
        names_known(snapshot, ids),
    ensures
        ({
            let kept = snapshot.excerpts@.filter(|e: Excerpt| !ids.contains(e.id));
            let left = snapshot.remaining(ids);
            &&& left.len() == kept.len()
            &&& forall|i: int|
                0 <= i < left.len() ==> same_but_newline(#[trigger] left[i], kept[i])
        }),
{
    let es = snapshot.excerpts@;
    let n = es.len() as int;
    let start = Removal { kept: seq![], edits: seq![], at: 0 };
    assert(es.take(0) =~= Seq::<Excerpt>::empty());
    lemma_known_removal(snapshot, ids, 0, start);
    lemma_kept(es, ids);
    let done = snapshot.removal_of(ids);
    let rest = es.subrange(done.at, n);
    assert(es.skip(done.at) =~= rest);
    assert forall|i: int| 0 <= i < rest.len() implies !ids.contains((#[trigger] rest[i]).id) by {
        if ids.contains(rest[i].id) {
            let l = choose|l: int| 0 <= l < ids.len() && ids[l] == rest[i].id;
            snapshot.lemma_excerpt_found(ids[l], done.at + i);
        }
    }
    lemma_kept_all(rest, ids);
    lemma_kept_concat(es.take(done.at), rest, ids);
    assert(es.take(done.at) + rest =~= es);
    let kept = kept_of(es, ids);
    let left = snapshot.remaining(ids);
    if done.at == n {
        assert(rest =~= Seq::<Excerpt>::empty());
        assert(left =~= done.kept);
        assert(kept =~= kept_of(es.take(n), ids));
        assert(es.take(n) =~= es);
    }
    assert forall|i: int| 0 <= i < left.len() implies same_but_newline(
        #[trigger] left[i],
        kept[i],
    ) by {}
}

} // verus!
