//! What a removal of excerpts leaves.

use std::ops::Range;
use std::sync::Arc;
use vstd::prelude::*;

use crate::buffer::{BufferSnapshot, ToBufferOffset};
use crate::excerpt::{
    excerpt_start, excerpts_text, lemma_excerpt_start_grows, lemma_excerpts_text_concat,
    lemma_excerpts_text_split, lemma_excerpts_text_step, Excerpt, ExcerptId, ExcerptRange,
};
use crate::multi_buffer::insert::{
    ids_follow, is_new_excerpt, place_at, place_before, spliced, with_last_newline,
};
use crate::multi_buffer::remove::Removal;
use crate::multi_buffer::sync::lemma_patched_suffix;
use crate::multi_buffer::{patched, Edit, MultiBuffer};
use crate::snapshot::ids::lemma_locator_index;
use crate::snapshot::{excerpts_wf, is_mapped, maps, MultiBufferSnapshot};
use crate::text::Bias;

verus! {

/// The excerpts that identifiers do not name.
pub open spec fn kept_of(es: Seq<Excerpt>, ids: Seq<ExcerptId>) -> Seq<Excerpt>
    decreases es.len(),
{
    if es.len() == 0 {
        seq![]
    } else if ids.contains(es.last().id) {
        kept_of(es.drop_last(), ids)
    } else {
        kept_of(es.drop_last(), ids).push(es.last())
    }
}

/// Whether identifiers name excerpts, each behind the one before.
pub open spec fn names_in_order(snapshot: MultiBufferSnapshot, ids: Seq<ExcerptId>) -> bool {
    &&& forall|k: int| 0 <= k < ids.len() ==> snapshot.has_excerpt(#[trigger] ids[k])
    &&& forall|k: int, l: int|
        0 <= k < l < ids.len() ==> snapshot.index_for(#[trigger] ids[k]) < snapshot.index_for(
            #[trigger] ids[l],
        )
}

/// What is kept of excerpts that follow one another.
pub proof fn lemma_kept_concat(a: Seq<Excerpt>, b: Seq<Excerpt>, ids: Seq<ExcerptId>)
    ensures
        kept_of(a + b, ids) == kept_of(a, ids) + kept_of(b, ids),
    decreases b.len(),
{
    if b.len() == 0 {
        assert(a + b =~= a);
        assert(kept_of(a, ids) + kept_of(b, ids) =~= kept_of(a, ids));
    } else {
        lemma_kept_concat(a, b.drop_last(), ids);
        assert((a + b).drop_last() =~= a + b.drop_last());
        assert((a + b).last() == b.last());
        assert(kept_of(a + b, ids) =~= kept_of(a, ids) + kept_of(b, ids));
    }
}

/// All excerpts are kept where none is named.
pub proof fn lemma_kept_all(es: Seq<Excerpt>, ids: Seq<ExcerptId>)
    requires
        forall|i: int| 0 <= i < es.len() ==> !ids.contains((#[trigger] es[i]).id),
    ensures
        kept_of(es, ids) == es,
    decreases es.len(),
{
    if es.len() > 0 {
        lemma_kept_all(es.drop_last(), ids);
        assert(es.drop_last().push(es.last()) =~= es);
    }
}

/// No excerpt is kept where all are named.
pub proof fn lemma_kept_none(es: Seq<Excerpt>, ids: Seq<ExcerptId>)
    requires
        forall|i: int| 0 <= i < es.len() ==> ids.contains((#[trigger] es[i]).id),
    ensures
        kept_of(es, ids).len() == 0,
    decreases es.len(),
{
    if es.len() > 0 {
        lemma_kept_none(es.drop_last(), ids);
    }
}

/// A run of excerpts that go has as many identifiers, and ends before the next
/// excerpt that goes.
proof fn lemma_run(snapshot: MultiBufferSnapshot, ids: Seq<ExcerptId>, i: int, k: int)
    requires
        snapshot.wf(),
        names_in_order(snapshot, ids),
        0 <= k < ids.len(),
        i == snapshot.index_for(ids[k]),
    ensures
        ({
            let m = snapshot.run_len(ids, i, k);
            &&& 1 <= m <= ids.len() - k
            &&& i + m <= snapshot.excerpts@.len()
            &&& forall|j: int| 0 <= j < m ==> snapshot.index_for(#[trigger] ids[k + j]) == i + j
            &&& k + m < ids.len() ==> i + m < snapshot.index_for(ids[k + m])
        }),
    decreases ids.len() - k,
{
    let es = snapshot.excerpts@;
    let m = snapshot.run_len(ids, i, k);
    assert(snapshot.has_excerpt(ids[k]));
    if k + 1 < ids.len() {
        assert(snapshot.has_excerpt(ids[k + 1]));
        let next = snapshot.index_for(ids[k + 1]);
        assert(i < next);
        snapshot.lemma_excerpt_id(next);
        if i + 1 < es.len() && es[i + 1].locator@ == snapshot.locator_for(ids[k + 1]) {
            snapshot.lemma_index_at(i + 1);
            assert(next == i + 1);
            lemma_run(snapshot, ids, i + 1, k + 1);
            assert forall|j: int| 0 <= j < m implies snapshot.index_for(#[trigger] ids[k + j])
                == i + j by {
                if j > 0 {
                    assert(ids[(k + 1) + (j - 1)] == ids[k + j]);
                }
            }
        } else if next == i + 1 {
            assert(es[i + 1].id == ids[k + 1]);
        }
    }
}

/// Whether a removal has come as far as the excerpts before the `at`-th.
spec fn is_so_far(
    snapshot: MultiBufferSnapshot,
    ids: Seq<ExcerptId>,
    k: int,
    done: Removal,
) -> bool {
    let es = snapshot.excerpts@;
    &&& 0 <= k <= ids.len()
    &&& 0 <= done.at <= es.len()
    &&& k < ids.len() ==> done.at <= snapshot.index_for(ids[k])
    &&& k == 0 ==> done.at == 0
    &&& 0 < k < ids.len() ==> done.at < snapshot.index_for(ids[k])
    &&& k > 0 ==> done.at == snapshot.index_for(ids[k - 1]) + 1
    &&& done.kept == if k > 0 && done.at == es.len() {
        with_last_newline(kept_of(es.take(done.at), ids), false)
    } else {
        kept_of(es.take(done.at), ids)
    }
    &&& patched(excerpts_text(es.take(done.at)), excerpts_text(done.kept), done.edits)
}

/// No excerpt between two that go next to one another goes.
proof fn lemma_between(
    snapshot: MultiBufferSnapshot,
    ids: Seq<ExcerptId>,
    k: int,
    from: int,
    to: int,
)
    requires
        snapshot.wf(),
        names_in_order(snapshot, ids),
        0 <= k <= ids.len(),
        0 <= from <= to <= snapshot.excerpts@.len(),
        k > 0 ==> from > snapshot.index_for(ids[k - 1]),
        k < ids.len() ==> to <= snapshot.index_for(ids[k]),
    ensures
        kept_of(snapshot.excerpts@.subrange(from, to), ids) == snapshot.excerpts@.subrange(
            from,
            to,
        ),
{
    let es = snapshot.excerpts@;
    let part = es.subrange(from, to);
    assert forall|i: int| 0 <= i < part.len() implies !ids.contains((#[trigger] part[i]).id) by {
        if ids.contains(part[i].id) {
            let l = choose|l: int| 0 <= l < ids.len() && ids[l] == part[i].id;
            snapshot.lemma_excerpt_found(ids[l], from + i);
            if l < k - 1 {
                assert(snapshot.index_for(ids[l]) < snapshot.index_for(ids[k - 1]));
            }
            if l > k {
                assert(snapshot.index_for(ids[k]) < snapshot.index_for(ids[l]));
            }
        }
    }
    lemma_kept_all(part, ids);
}

/// A text with a line break behind it, without the line break.
proof fn lemma_cut_newline(es: Seq<Excerpt>)
    requires
        es.len() > 0,
        es.last().has_trailing_newline,
    ensures
        excerpts_text(with_last_newline(es, false)) == excerpts_text(es).drop_last(),
        excerpts_text(es).len() > 0,
{
    let cut = with_last_newline(es, false);
    assert(cut.drop_last() =~= es.drop_last());
    assert(cut.last().bytes() == es.last().bytes());
    assert(excerpts_text(cut) =~= excerpts_text(es).drop_last());
}

/// The edit that takes out a run of excerpts.
spec fn run_edit(es: Seq<Excerpt>, i: int, m: int, new_kept: Seq<Excerpt>) -> Edit {
    let cuts_newline = i + m == es.len() && excerpt_start(es, i) > 0;
    let old_start = excerpt_start(es, i) - if cuts_newline {
        1int
    } else {
        0int
    };
    let new_start = excerpts_text(new_kept).len() as usize;
    Edit {
        old: Range { start: old_start as usize, end: excerpt_start(es, i + m) as usize },
        new: Range { start: new_start, end: new_start },
    }
}

/// Texts to which the same is added.
proof fn lemma_same_added(
    es: Seq<Excerpt>,
    kept: Seq<Excerpt>,
    edits: Seq<Edit>,
    from: int,
    to: int,
)
    requires
        0 <= from <= to <= es.len(),
        patched(excerpts_text(es.take(from)), excerpts_text(kept), edits),
    ensures
        patched(
            excerpts_text(es.take(to)),
            excerpts_text(kept + es.subrange(from, to)),
            edits,
        ),
{
    let part = es.subrange(from, to);
    lemma_excerpts_text_concat(es.take(from), part);
    lemma_excerpts_text_concat(kept, part);
    assert(es.take(from) + part =~= es.take(to));
    lemma_patched_suffix(
        excerpts_text(es.take(from)),
        excerpts_text(kept),
        edits,
        excerpts_text(part),
    );
}

/// Texts to which the same is added, but for the line break at the end.
proof fn lemma_same_added_cut(
    es: Seq<Excerpt>,
    kept: Seq<Excerpt>,
    edits: Seq<Edit>,
    from: int,
    to: int,
)
    requires
        0 <= from < to <= es.len(),
        es[to - 1].has_trailing_newline,
        patched(excerpts_text(es.take(from)), excerpts_text(kept), edits),
    ensures
        patched(
            excerpts_text(es.take(to)).drop_last(),
            excerpts_text(with_last_newline(kept + es.subrange(from, to), false)),
            edits,
        ),
{
    let part = es.subrange(from, to);
    lemma_excerpts_text_concat(es.take(from), part);
    lemma_excerpts_text_concat(kept, part);
    assert(es.take(from) + part =~= es.take(to));
    let all = kept + part;
    assert(all.last() == es[to - 1]);
    lemma_cut_newline(all);
    lemma_cut_newline(part);
    let cut = excerpts_text(part).drop_last();
    assert((excerpts_text(es.take(from)) + excerpts_text(part)).drop_last() =~= excerpts_text(
        es.take(from),
    ) + cut);
    assert((excerpts_text(kept) + excerpts_text(part)).drop_last() =~= excerpts_text(kept) + cut);
    lemma_patched_suffix(excerpts_text(es.take(from)), excerpts_text(kept), edits, cut);
}

/// What is kept before the end of a run.
proof fn lemma_run_kept(snapshot: MultiBufferSnapshot, ids: Seq<ExcerptId>, k: int, at: int)
    requires
        snapshot.wf(),
        names_in_order(snapshot, ids),
        0 <= k < ids.len(),
        0 <= at <= snapshot.index_for(ids[k]),
        k > 0 ==> at > snapshot.index_for(ids[k - 1]),
    ensures
        ({
            let es = snapshot.excerpts@;
            let i = snapshot.index_for(ids[k]);
            let m = snapshot.run_len(ids, i, k);
            kept_of(es.take(i + m), ids) == kept_of(es.take(at), ids) + es.subrange(at, i)
        }),
{
    let es = snapshot.excerpts@;
    let i = snapshot.index_for(ids[k]);
    let m = snapshot.run_len(ids, i, k);
    assert(snapshot.has_excerpt(ids[k]));
    lemma_run(snapshot, ids, i, k);
    lemma_between(snapshot, ids, k, at, i);
    lemma_kept_concat(es.take(at), es.subrange(at, i), ids);
    assert(es.take(at) + es.subrange(at, i) =~= es.take(i));
    let run = es.subrange(i, i + m);
    assert forall|j: int| 0 <= j < run.len() implies ids.contains((#[trigger] run[j]).id) by {
        assert(snapshot.index_for(ids[k + j]) == i + j);
        assert(snapshot.has_excerpt(ids[k + j]));
    }
    lemma_kept_none(run, ids);
    lemma_kept_concat(es.take(i), run, ids);
    assert(es.take(i) + run =~= es.take(i + m));
    assert(kept_of(es.take(i), ids) + kept_of(run, ids) =~= kept_of(es.take(i), ids));
}

/// How the text changes up to the end of a run.
proof fn lemma_run_patched(
    es: Seq<Excerpt>,
    kept: Seq<Excerpt>,
    edits: Seq<Edit>,
    at: int,
    i: int,
    m: int,
)
    requires
        excerpts_wf(es),
        0 <= at <= i,
        1 <= m <= es.len() - i,
        i > 0 ==> at < i || i + m < es.len(),
        patched(excerpts_text(es.take(at)), excerpts_text(kept), edits),
        excerpts_text(kept).len() <= excerpts_text(es.take(at)).len(),
    ensures
        ({
            let all = kept + es.subrange(at, i);
            let cuts_newline = i + m == es.len() && excerpt_start(es, i) > 0;
            let new_kept = if cuts_newline {
                with_last_newline(all, false)
            } else {
                all
            };
            &&& patched(
                excerpts_text(es.take(i + m)),
                excerpts_text(new_kept),
                edits.push(run_edit(es, i, m, new_kept)),
            )
            &&& cuts_newline == (i + m == es.len() && i > 0)
        }),
{
    let part = es.subrange(at, i);
    let all = kept + part;
    let cuts_newline = i + m == es.len() && excerpt_start(es, i) > 0;
    let new_kept = if cuts_newline {
        with_last_newline(all, false)
    } else {
        all
    };
    lemma_excerpts_text_split(es, i);
    lemma_excerpts_text_split(es, i + m);
    lemma_excerpt_start_grows(es, i, i + m);
    let edit = run_edit(es, i, m, new_kept);
    let old_text = excerpts_text(es.take(i + m));
    let run = es.subrange(i, i + m);
    lemma_excerpts_text_concat(es.take(i), run);
    assert(es.take(i) + run =~= es.take(i + m));
    lemma_excerpts_text_concat(es.take(at), part);
    assert(es.take(at) + part =~= es.take(i));
    lemma_excerpts_text_concat(kept, part);
    if i > 0 {
        lemma_excerpts_text_step(es, i - 1);
        assert(es[i - 1].has_trailing_newline);
        assert(es[i - 1].text().len() > 0);
    } else {
        assert(es.take(0) =~= seq![]);
    }
    if cuts_newline {
        lemma_same_added_cut(es, kept, edits, at, i);
        assert(all.last() == es[i - 1]);
        lemma_cut_newline(all);
        assert(old_text.take(edit.old.start as int) =~= excerpts_text(es.take(i)).drop_last());
    } else {
        lemma_same_added(es, kept, edits, at, i);
        assert(old_text.take(edit.old.start as int) =~= excerpts_text(es.take(i)));
    }
    lemma_patched_end(old_text, excerpts_text(new_kept), edits, edit);
}

/// One run more.
#[verifier::rlimit(50)]
proof fn lemma_run_goes(
    snapshot: MultiBufferSnapshot,
    ids: Seq<ExcerptId>,
    k: int,
    done: Removal,
)
    requires
        snapshot.wf(),
        names_in_order(snapshot, ids),
        is_so_far(snapshot, ids, k, done),
        k < ids.len(),
    ensures
        ({
            let es = snapshot.excerpts@;
            let i = snapshot.index_for(ids[k]);
            let m = snapshot.run_len(ids, i, k);
            let kept = done.kept + es.subrange(done.at, i);
            let cuts_newline = i + m == es.len() && excerpt_start(es, i) > 0;
            let new_kept = if cuts_newline {
                with_last_newline(kept, false)
            } else {
                kept
            };
            is_so_far(
                snapshot,
                ids,
                k + m,
                Removal {
                    kept: new_kept,
                    edits: done.edits.push(run_edit(es, i, m, new_kept)),
                    at: i + m,
                },
            )
        }),
{
    let es = snapshot.excerpts@;
    let i = snapshot.index_for(ids[k]);
    let m = snapshot.run_len(ids, i, k);
    assert(snapshot.has_excerpt(ids[k]));
    lemma_run(snapshot, ids, i, k);
    assert(snapshot.index_for(ids[k + (m - 1)]) == i + (m - 1));
    assert(ids[k + (m - 1)] == ids[k + m - 1]);
    lemma_run_kept(snapshot, ids, k, done.at);
    lemma_kept_text(es, ids, done.at);
    lemma_run_patched(es, done.kept, done.edits, done.at, i, m);
    if i + m == es.len() && i == 0 {
        assert(kept_of(es.take(i + m), ids) =~= with_last_newline(
            kept_of(es.take(i + m), ids),
            false,
        )) by {
            assert(es.take(0) =~= seq![]);
        }
    }
}

/// One edit more, which takes out the end of a text.
proof fn lemma_patched_end(old: Seq<u8>, new: Seq<u8>, edits: Seq<Edit>, edit: Edit)
    requires
        edit.old.start <= edit.old.end == old.len(),
        edit.new.start == edit.new.end == new.len(),
        patched(old.take(edit.old.start as int), new, edits),
    ensures
        patched(old, new, edits.push(edit)),
{
    assert(edits.push(edit).drop_last() =~= edits);
    assert(new.take(new.len() as int) =~= new);
    assert(old.skip(old.len() as int) =~= new.skip(new.len() as int));
}

/// What is kept is no longer than what there was.
proof fn lemma_kept_text(es: Seq<Excerpt>, ids: Seq<ExcerptId>, n: int)
    requires
        0 <= n <= es.len(),
    ensures
        excerpts_text(kept_of(es.take(n), ids)).len() <= excerpts_text(es.take(n)).len(),
        excerpts_text(with_last_newline(kept_of(es.take(n), ids), false)).len()
            <= excerpts_text(es.take(n)).len(),
    decreases n,
{
    let kept = kept_of(es.take(n), ids);
    if n > 0 {
        lemma_kept_text(es, ids, n - 1);
        assert(es.take(n).drop_last() =~= es.take(n - 1));
        if !ids.contains(es[n - 1].id) {
            assert(kept.drop_last() =~= kept_of(es.take(n - 1), ids));
        }
    } else {
        assert(es.take(0) =~= seq![]);
    }
    if kept.len() > 0 {
        let cut = with_last_newline(kept, false);
        assert(cut.drop_last() =~= kept.drop_last());
        assert(cut.last().bytes() == kept.last().bytes());
    }
}

/// The removal of the excerpts that the identifiers from the `k`-th on name.
proof fn lemma_removal(snapshot: MultiBufferSnapshot, ids: Seq<ExcerptId>, k: int, done: Removal)
    requires
        snapshot.wf(),
        names_in_order(snapshot, ids),
        is_so_far(snapshot, ids, k, done),
    ensures
        is_so_far(snapshot, ids, ids.len() as int, snapshot.removal(ids, k, done)),
    decreases ids.len() - k,
{
    if k < ids.len() {
        let es = snapshot.excerpts@;
        let i = snapshot.index_for(ids[k]);
        assert(snapshot.has_excerpt(ids[k]));
        lemma_run(snapshot, ids, i, k);
        lemma_run_goes(snapshot, ids, k, done);
        let m = snapshot.run_len(ids, i, k);
        let kept = done.kept + es.subrange(done.at, i);
        let new_kept = if i + m == es.len() && excerpt_start(es, i) > 0 {
            with_last_newline(kept, false)
        } else {
            kept
        };
        lemma_removal(
            snapshot,
            ids,
            k + m,
            Removal {
                kept: new_kept,
                edits: done.edits.push(run_edit(es, i, m, new_kept)),
                at: i + m,
            },
        );
    }
}

/// Removing excerpts, named in order, leaves exactly the others, in the same order
/// and without a line break behind the last; and the text changes as the edits
/// say.
#[verifier::rlimit(50)]
pub proof fn lemma_removed_excerpts(snapshot: MultiBufferSnapshot, ids: Seq<ExcerptId>)
    requires
        snapshot.wf(),
        names_in_order(snapshot, ids),
    ensures
        snapshot.remaining(ids) == with_last_newline(kept_of(snapshot.excerpts@, ids), false),
        patched(
            snapshot.bytes(),
            excerpts_text(snapshot.remaining(ids)),
            snapshot.removal_of(ids).edits,
        ),
{
    let es = snapshot.excerpts@;
    let start = Removal { kept: seq![], edits: seq![], at: 0 };
    assert(es.take(0) =~= seq![]);
    assert(patched(seq![], seq![], seq![]));
    if ids.len() > 0 {
        assert(snapshot.has_excerpt(ids[0]));
    }
    lemma_removal(snapshot, ids, 0, start);
    let done = snapshot.removal_of(ids);
    let n = es.len() as int;
    let rest = es.subrange(done.at, n);
    assert(es.skip(done.at) =~= rest);
    assert(es.take(n) =~= es);
    lemma_same_added(es, done.kept, done.edits, done.at, n);
    lemma_between(snapshot, ids, ids.len() as int, done.at, n);
    lemma_kept_concat(es.take(done.at), rest, ids);
    assert(es.take(done.at) + rest =~= es);
    if done.at < n {
        assert(!es[n - 1].has_trailing_newline);
        let all = kept_of(es, ids);
        assert(all.last() == es[n - 1]);
        assert(with_last_newline(all, false) =~= all);
    } else {
        assert(done.kept + rest =~= done.kept);
        assert(kept_of(es, ids) =~= kept_of(es.take(done.at), ids));
        if ids.len() == 0 {
            assert(n == 0);
        }
    }
}

/// Removing the excerpts that were just shown brings back the excerpts, and so the
/// text, that were there before.
#[verifier::rlimit(50)]
pub proof fn lemma_removal_undoes_insertion<O: ToBufferOffset>(
    before: MultiBuffer,
    after: MultiBuffer,
    prev_excerpt_id: ExcerptId,
    buffer: Arc<BufferSnapshot>,
    ranges: Seq<(ExcerptId, ExcerptRange<O>)>,
)
    requires
        before.wf(),
        after.wf(),
        before.snapshot.knows_id(prev_excerpt_id),
        ids_follow(before.snapshot.excerpt_ids@, ranges),
        after.shows_more(&before, prev_excerpt_id, buffer, ranges),
    ensures
        names_in_order(after.snapshot, ranges.map_values(|r: (ExcerptId, ExcerptRange<O>)| r.0)),
        after.snapshot.remaining(ranges.map_values(|r: (ExcerptId, ExcerptRange<O>)| r.0))
            == before.snapshot.excerpts@,
{
    let ids = ranges.map_values(|r: (ExcerptId, ExcerptRange<O>)| r.0);
    let es = before.snapshot.excerpts@;
    let all = after.snapshot.excerpts@;
    let n = ranges.len() as int;
    if n == 0 {
        lemma_removed_excerpts(after.snapshot, ids);
        lemma_kept_all(es, ids);
        lemma_no_last_newline(es);
    } else {
        let p = before.insertion_index(prev_excerpt_id);
        lemma_locator_index(es, before.snapshot.locator_for(prev_excerpt_id), Bias::Right, 0);
        let news = all.subrange(p, p + n);
        assert forall|k: int| 0 <= k < n implies #[trigger] all[p + k].id == ids[k] by {
            assert(is_new_excerpt(
                news[k],
                k,
                ranges,
                buffer,
                place_before(es, p),
                place_at(es, p),
                p < es.len(),
            ));
        }
        assert forall|k: int| 0 <= k < ids.len() implies after.snapshot.has_excerpt(
            #[trigger] ids[k],
        ) && after.snapshot.index_for(ids[k]) == p + k by {
            assert(all[p + k].id == ids[k]);
            after.snapshot.lemma_excerpt_found(ids[k], p + k);
        }
        lemma_removed_excerpts(after.snapshot, ids);
        lemma_old_ids(before, ranges);
        assert forall|k: int| 0 <= k < news.len() implies ids.contains((#[trigger] news[k]).id) by {
            assert(all[p + k].id == ids[k]);
        }
        lemma_kept_of_spliced(es, p, news, ids);
    }
}

/// The excerpts that others were put into, without those others.
proof fn lemma_kept_of_spliced(
    es: Seq<Excerpt>,
    p: int,
    news: Seq<Excerpt>,
    ids: Seq<ExcerptId>,
)
    requires
        excerpts_wf(es),
        0 <= p <= es.len(),
        forall|i: int| 0 <= i < es.len() ==> !ids.contains((#[trigger] es[i]).id),
        forall|k: int| 0 <= k < news.len() ==> ids.contains((#[trigger] news[k]).id),
    ensures
        with_last_newline(kept_of(spliced(es, p, news), ids), false) == es,
{
    reveal(spliced);
    let head = with_last_newline(es.take(p), true);
    let tail = es.skip(p);
    lemma_kept_concat(head + news, tail, ids);
    lemma_kept_concat(head, news, ids);
    assert forall|i: int| 0 <= i < head.len() implies !ids.contains((#[trigger] head[i]).id) by {
        assert(head[i].id == es[i].id);
    }
    assert forall|i: int| 0 <= i < tail.len() implies !ids.contains((#[trigger] tail[i]).id) by {
        assert(tail[i] == es[p + i]);
    }
    lemma_kept_all(head, ids);
    lemma_kept_all(tail, ids);
    lemma_kept_none(news, ids);
    let kept = kept_of(spliced(es, p, news), ids);
    assert(kept =~= head + tail);
    if p < es.len() {
        if p > 0 {
            assert(es[p - 1].has_trailing_newline);
        }
        assert(head =~= es.take(p));
        assert(kept =~= es);
        lemma_no_last_newline(es);
    } else if p > 0 {
        assert(!es[p - 1].has_trailing_newline);
        assert(with_last_newline(kept, false) =~= es);
    }
}

/// There is no line break behind the last excerpt.
proof fn lemma_no_last_newline(es: Seq<Excerpt>)
    requires
        excerpts_wf(es),
    ensures
        with_last_newline(es, false) == es,
{
    if es.len() > 0 {
        assert(!es[es.len() - 1].has_trailing_newline);
        assert(with_last_newline(es, false) =~= es);
    }
}

/// No excerpt has an identifier that is still to be handed out.
proof fn lemma_old_ids<O>(before: MultiBuffer, ranges: Seq<(ExcerptId, ExcerptRange<O>)>)
    requires
        before.wf(),
        ids_follow(before.snapshot.excerpt_ids@, ranges),
    ensures
        forall|i: int|
            0 <= i < before.snapshot.excerpts@.len() ==> !ranges.map_values(
                |r: (ExcerptId, ExcerptRange<O>)| r.0,
            ).contains((#[trigger] before.snapshot.excerpts@[i]).id),
{
    let es = before.snapshot.excerpts@;
    let entries = before.snapshot.excerpt_ids@;
    let ids = ranges.map_values(|r: (ExcerptId, ExcerptRange<O>)| r.0);
    assert forall|i: int| 0 <= i < es.len() implies !ids.contains((#[trigger] es[i]).id) by {
        assert(is_mapped(entries, es[i]));
        let m = choose|m: int| maps(entries, m, es[i]);
        if m < entries.len() - 1 {
            assert(entries[m].id.0 < entries[entries.len() - 1].id.0);
        }
        if ids.contains(es[i].id) {
            let k = choose|k: int| 0 <= k < ids.len() && ids[k] == es[i].id;
            assert(ranges[k].0 == ids[k]);
            if k > 0 {
                assert(ranges[0].0.0 < ranges[k].0.0);
            }
        }
    }
}

} // verus!
