//! What holds of excerpts of several buffers that are pushed together.

use std::sync::Arc;
use vstd::prelude::*;

use crate::anchor::Anchor;
use crate::buffer::{BufferId, BufferSnapshot};
use crate::excerpt::{ExcerptId, ExcerptRange};
use crate::excerpt_ranges::counted;
use crate::multi_buffer::insert::{anchored, next_id, numbered, spliced, with_last_newline};
use crate::multi_buffer::insert_laws::{lemma_repeated, same_but_newline};
use crate::multi_buffer::push_many::{
    all_ranges_in, all_wf, arranged, becomes_well, by_buffer, goes_through, ids_from, is_pushed,
    lemma_pushed, pushes_from, pushes_of, result_of, total_count, BuiltExcerpts, PUSH_SIZE, Push,
};
use crate::multi_buffer::waiting::waits_for;
use crate::multi_buffer::MultiBuffer;
use crate::text::Point;

verus! {

proof fn lemma_result_of(results: Seq<BuiltExcerpts>, buffer_id: BufferId, from: int)
    requires
        0 <= from <= results.len(),
    ensures
        ({
            let i = result_of(results, buffer_id, from);
            &&& from <= i <= results.len()
            &&& i < results.len() ==> results[i].buffer.remote_id == buffer_id
            &&& forall|j: int|
                from <= j < i ==> (#[trigger] results[j]).buffer.remote_id != buffer_id
        }),
    decreases results.len() - from,
{
    if from < results.len() && results[from].buffer.remote_id != buffer_id {
        lemma_result_of(results, buffer_id, from + 1);
    }
}

/// Whether no two of the results are of one buffer.
pub open spec fn results_distinct(results: Seq<BuiltExcerpts>) -> bool {
    forall|a: int, b: int|
        0 <= a < b < results.len() ==> (#[trigger] results[a]).buffer.remote_id != (
        #[trigger] results[b]).buffer.remote_id
}

/// Whether the `k`-th of the results is the last of its buffer.
pub open spec fn is_last_of_buffer(results: Seq<BuiltExcerpts>, k: int) -> bool {
    &&& 0 <= k < results.len()
    &&& forall|j: int|
        k < j < results.len() ==> (#[trigger] results[j]).buffer.remote_id
            != results[k].buffer.remote_id
}

/// Of each buffer the last result that came in is kept, and no other.
#[verifier::rlimit(50)]
pub proof fn lemma_by_buffer(results: Seq<BuiltExcerpts>)
    ensures
        ({
            let r = by_buffer(results);
            &&& results_distinct(r)
            &&& forall|a: int|
                #![trigger r[a]]
                0 <= a < r.len() ==> exists|k: int|
                    #[trigger] is_last_of_buffer(results, k) && results[k] == r[a]
            &&& forall|k: int| #[trigger] is_last_of_buffer(results, k) ==> r.contains(results[k])
        }),
    decreases results.len(),
{
    let r = by_buffer(results);
    if results.len() > 0 {
        let results_front = results.drop_last();
        let last = results.last();
        let n = results_front.len() as int;
        let id = last.buffer.remote_id;
        let front = by_buffer(results_front);
        lemma_by_buffer(results_front);
        lemma_result_of(front, id, 0);
        let i = result_of(front, id, 0);
        assert(results[n] == last);
        assert(is_last_of_buffer(results, n));
        assert forall|a: int, b: int| 0 <= a < b < r.len() implies (
        #[trigger] r[a]).buffer.remote_id != (#[trigger] r[b]).buffer.remote_id by {
            if i < front.len() {
                assert(front[a].buffer.remote_id != front[b].buffer.remote_id);
                assert(r[a].buffer.remote_id == front[a].buffer.remote_id);
                assert(r[b].buffer.remote_id == front[b].buffer.remote_id);
            } else if b < front.len() {
                assert(front[a].buffer.remote_id != front[b].buffer.remote_id);
            } else {
                assert(front[a].buffer.remote_id != id);
            }
        }
        assert forall|a: int| #![trigger r[a]] 0 <= a < r.len() implies exists|k: int|
            #[trigger] is_last_of_buffer(results, k) && results[k] == r[a] by {
            if a == i {
                assert(r[a] == last);
            } else {
                assert(r[a] == front[a]);
                let k = choose|k: int|
                    #[trigger] is_last_of_buffer(results_front, k) && results_front[k] == front[a];
                assert(front[a].buffer.remote_id != id) by {
                    if i < front.len() {
                        if a < i {
                            assert(front[a].buffer.remote_id != front[i].buffer.remote_id);
                        } else {
                            assert(front[i].buffer.remote_id != front[a].buffer.remote_id);
                        }
                    }
                }
                assert forall|j: int| k < j < results.len() implies (
                #[trigger] results[j]).buffer.remote_id != results[k].buffer.remote_id by {
                    if j < n {
                        assert(results_front[j].buffer.remote_id
                            != results_front[k].buffer.remote_id);
                    }
                }
                assert(is_last_of_buffer(results, k) && results[k] == r[a]);
            }
        }
        assert forall|k: int| #[trigger] is_last_of_buffer(results, k) implies r.contains(
            results[k],
        ) by {
            if k == n {
                assert(r[i] == last);
            } else {
                assert forall|j: int| k < j < results_front.len() implies (
                #[trigger] results_front[j]).buffer.remote_id
                    != results_front[k].buffer.remote_id by {
                    assert(results[j].buffer.remote_id != results[k].buffer.remote_id);
                }
                assert(is_last_of_buffer(results_front, k));
                let a = choose|a: int| 0 <= a < front.len() && front[a] == results_front[k];
                assert(results[n].buffer.remote_id != results[k].buffer.remote_id);
                assert(r[a] == front[a]);
            }
        }
    }
}

/// The results are pushed in the order in which the buffers were asked: what is pushed is
/// one of the results; each result of a buffer that was asked is pushed once; and of two,
/// that of the buffer asked first comes first.
#[verifier::rlimit(50)]
pub proof fn lemma_arranged(buffer_ids: Seq<BufferId>, results: Seq<BuiltExcerpts>)
    requires
        results_distinct(results),
    ensures
        ({
            let r = arranged(buffer_ids, results);
            &&& results_distinct(r)
            &&& forall|a: int|
                0 <= a < r.len() ==> results.contains(#[trigger] r[a]) && buffer_ids.contains(
                    r[a].buffer.remote_id,
                )
            &&& forall|k: int|
                0 <= k < results.len() && buffer_ids.contains(
                    (#[trigger] results[k]).buffer.remote_id,
                ) ==> r.contains(results[k])
            &&& forall|a: int, b: int|
                0 <= a < b < r.len() ==> asked_before(
                    buffer_ids,
                    (#[trigger] r[a]).buffer.remote_id,
                    (#[trigger] r[b]).buffer.remote_id,
                )
        }),
    decreases buffer_ids.len(),
{
    let r = arranged(buffer_ids, results);
    if buffer_ids.len() > 0 {
        let id = buffer_ids[0];
        let ids = buffer_ids.skip(1);
        lemma_result_of(results, id, 0);
        let i = result_of(results, id, 0);
        if i < results.len() {
            let left = results.remove(i);
            let rest = arranged(ids, left);
            assert forall|a: int, b: int| 0 <= a < b < left.len() implies (
            #[trigger] left[a]).buffer.remote_id != (#[trigger] left[b]).buffer.remote_id by {
                let x = if a < i {
                    a
                } else {
                    a + 1
                };
                let y = if b < i {
                    b
                } else {
                    b + 1
                };
                assert(results[x].buffer.remote_id != results[y].buffer.remote_id);
            }
            assert forall|a: int| 0 <= a < left.len() implies (
            #[trigger] left[a]).buffer.remote_id != id && results.contains(left[a]) by {
                if a < i {
                    assert(results[a].buffer.remote_id != results[i].buffer.remote_id);
                } else {
                    assert(results[i].buffer.remote_id != results[a + 1].buffer.remote_id);
                }
            }
            lemma_arranged(ids, left);
            assert forall|a: int| 0 <= a < rest.len() implies (
            #[trigger] rest[a]).buffer.remote_id != id && results.contains(rest[a])
                && buffer_ids.contains(rest[a].buffer.remote_id) by {
                assert(left.contains(rest[a]));
                let x = choose|x: int| 0 <= x < left.len() && left[x] == rest[a];
                assert(ids.contains(rest[a].buffer.remote_id));
                let y = choose|y: int| 0 <= y < ids.len() && ids[y] == rest[a].buffer.remote_id;
                assert(buffer_ids[y + 1] == rest[a].buffer.remote_id);
            }
            assert forall|a: int| 0 <= a < r.len() implies results.contains(#[trigger] r[a])
                && buffer_ids.contains(r[a].buffer.remote_id) by {
                if a > 0 {
                    assert(r[a] == rest[a - 1]);
                }
            }
            assert forall|k: int|
                0 <= k < results.len() && buffer_ids.contains(
                    (#[trigger] results[k]).buffer.remote_id,
                ) implies r.contains(results[k]) by {
                if k == i {
                    assert(r[0] == results[i]);
                } else {
                    let x = if k < i {
                        k
                    } else {
                        k - 1
                    };
                    assert(left[x] == results[k]);
                    let y = choose|y: int|
                        0 <= y < buffer_ids.len() && buffer_ids[y] == results[k].buffer.remote_id;
                    assert(y > 0);
                    assert(ids[y - 1] == left[x].buffer.remote_id);
                    assert(rest.contains(left[x]));
                    let z = choose|z: int| 0 <= z < rest.len() && rest[z] == left[x];
                    assert(r[z + 1] == results[k]);
                }
            }
            assert forall|a: int, b: int| 0 <= a < b < r.len() implies asked_before(
                buffer_ids,
                (#[trigger] r[a]).buffer.remote_id,
                (#[trigger] r[b]).buffer.remote_id,
            ) && r[a].buffer.remote_id != r[b].buffer.remote_id by {
                assert(r[b] == rest[b - 1]);
                if a > 0 {
                    assert(r[a] == rest[a - 1]);
                    lemma_asked_before(
                        buffer_ids,
                        rest[a - 1].buffer.remote_id,
                        rest[b - 1].buffer.remote_id,
                    );
                } else {
                    assert(buffer_ids[0] == r[0].buffer.remote_id);
                }
            }
        } else {
            lemma_arranged(ids, results);
            assert forall|a: int| 0 <= a < r.len() implies buffer_ids.contains(
                (#[trigger] r[a]).buffer.remote_id,
            ) && r[a].buffer.remote_id != id by {
                let y = choose|y: int| 0 <= y < ids.len() && ids[y] == r[a].buffer.remote_id;
                assert(buffer_ids[y + 1] == r[a].buffer.remote_id);
                let x = choose|x: int| 0 <= x < results.len() && results[x] == r[a];
                assert(results[x].buffer.remote_id != id);
            }
            assert forall|k: int|
                0 <= k < results.len() && buffer_ids.contains(
                    (#[trigger] results[k]).buffer.remote_id,
                ) implies r.contains(results[k]) by {
                let y = choose|y: int|
                    0 <= y < buffer_ids.len() && buffer_ids[y] == results[k].buffer.remote_id;
                assert(y > 0);
                assert(ids[y - 1] == results[k].buffer.remote_id);
            }
            assert forall|a: int, b: int| 0 <= a < b < r.len() implies asked_before(
                buffer_ids,
                (#[trigger] r[a]).buffer.remote_id,
                (#[trigger] r[b]).buffer.remote_id,
            ) by {
                lemma_asked_before(buffer_ids, r[a].buffer.remote_id, r[b].buffer.remote_id);
            }
        }
    }
}

/// Whether one buffer was asked before another was asked at all.
pub open spec fn asked_before(buffer_ids: Seq<BufferId>, a: BufferId, b: BufferId) -> bool {
    exists|x: int|
        0 <= x < buffer_ids.len() && #[trigger] buffer_ids[x] == a && forall|y: int|
            0 <= y <= x ==> #[trigger] buffer_ids[y] != b
}

proof fn lemma_asked_before(buffer_ids: Seq<BufferId>, a: BufferId, b: BufferId)
    requires
        buffer_ids.len() > 0,
        asked_before(buffer_ids.skip(1), a, b),
        buffer_ids[0] != b,
    ensures
        asked_before(buffer_ids, a, b),
{
    let ids = buffer_ids.skip(1);
    let x = choose|x: int|
        0 <= x < ids.len() && #[trigger] ids[x] == a && forall|y: int|
            0 <= y <= x ==> #[trigger] ids[y] != b;
    assert(buffer_ids[x + 1] == a);
    assert forall|y: int| 0 <= y <= x + 1 implies #[trigger] buffer_ids[y] != b by {
        if y > 0 {
            assert(ids[y - 1] != b);
        }
    }
}

/// The stretches of pushes, one behind the other.
pub open spec fn all_pushed(pushes: Seq<Push>) -> Seq<(BufferId, ExcerptRange<Point>)>
    decreases pushes.len(),
{
    if pushes.len() == 0 {
        seq![]
    } else {
        all_pushed(pushes.drop_last()) + pushes.last().ranges.map_values(
            |range: ExcerptRange<Point>| (pushes.last().buffer.remote_id, range),
        )
    }
}

proof fn lemma_all_pushed_concat(a: Seq<Push>, b: Seq<Push>)
    ensures
        all_pushed(a + b) == all_pushed(a) + all_pushed(b),
    decreases b.len(),
{
    if b.len() == 0 {
        assert(a + b =~= a);
        assert(all_pushed(a) + all_pushed(b) =~= all_pushed(a));
    } else {
        lemma_all_pushed_concat(a, b.drop_last());
        assert((a + b).drop_last() =~= a + b.drop_last());
        assert((a + b).last() == b.last());
        assert(all_pushed(a + b) =~= all_pushed(a) + all_pushed(b));
    }
}

proof fn lemma_pushes_from(
    buffer: Arc<BufferSnapshot>,
    ranges: Seq<ExcerptRange<Point>>,
    from: int,
)
    requires
        0 <= from <= ranges.len(),
    ensures
        ({
            let r = pushes_from(buffer, ranges, from);
            &&& all_pushed(r) == ranges.skip(from).map_values(
                |range: ExcerptRange<Point>| (buffer.remote_id, range),
            )
            &&& forall|c: int|
                0 <= c < r.len() ==> (#[trigger] r[c]).buffer == buffer && 0 < r[c].ranges.len()
                    <= 100
        }),
    decreases ranges.len() - from,
{
    let r = pushes_from(buffer, ranges, from);
    let told = |range: ExcerptRange<Point>| (buffer.remote_id, range);
    if from < ranges.len() {
        let to = if ranges.len() - from > PUSH_SIZE {
            from + PUSH_SIZE
        } else {
            ranges.len() as int
        };
        let first = seq![Push { buffer, ranges: ranges.subrange(from, to) }];
        let rest = pushes_from(buffer, ranges, to);
        lemma_pushes_from(buffer, ranges, to);
        assert(r == first + rest);
        lemma_all_pushed_concat(first, rest);
        let push = Push { buffer, ranges: ranges.subrange(from, to) };
        assert(first.drop_last() =~= Seq::<Push>::empty());
        assert(first.last() == push);
        assert(all_pushed(first) == all_pushed(first.drop_last()) + push.ranges.map_values(
            |range: ExcerptRange<Point>| (push.buffer.remote_id, range),
        ));
        assert(all_pushed(Seq::<Push>::empty()) =~= Seq::<(
            BufferId,
            ExcerptRange<Point>,
        )>::empty());
        assert(all_pushed(first) =~= ranges.subrange(from, to).map_values(told));
        assert(all_pushed(r) =~= ranges.skip(from).map_values(told));
        assert forall|c: int| 0 <= c < r.len() implies (#[trigger] r[c]).buffer == buffer && 0
            < r[c].ranges.len() <= 100 by {
            if c > 0 {
                assert(r[c] == rest[c - 1]);
            }
        }
    } else {
        assert(all_pushed(r) =~= ranges.skip(from).map_values(told));
    }
}

/// The stretches of several buffers, one behind the other.
pub open spec fn all_built(built: Seq<BuiltExcerpts>) -> Seq<(BufferId, ExcerptRange<Point>)>
    decreases built.len(),
{
    if built.len() == 0 {
        seq![]
    } else {
        all_built(built.drop_last()) + built.last().excerpt_ranges@.map_values(
            |range: ExcerptRange<Point>| (built.last().buffer.remote_id, range),
        )
    }
}

/// All stretches are pushed, in their order and each once, at most a hundred at a time.
pub proof fn lemma_pushes(built: Seq<BuiltExcerpts>)
    ensures
        all_pushed(pushes_of(built)) == all_built(built),
        forall|c: int|
            0 <= c < pushes_of(built).len() ==> 0 < (#[trigger] pushes_of(built)[c]).ranges.len()
                <= 100,
    decreases built.len(),
{
    if built.len() > 0 {
        let front = built.drop_last();
        let last = built.last();
        lemma_pushes(front);
        lemma_pushes_from(last.buffer, last.excerpt_ranges@, 0);
        let own = pushes_from(last.buffer, last.excerpt_ranges@, 0);
        lemma_all_pushed_concat(pushes_of(front), own);
        assert(last.excerpt_ranges@.skip(0) =~= last.excerpt_ranges@);
        assert forall|c: int| 0 <= c < pushes_of(built).len() implies 0 < (
        #[trigger] pushes_of(built)[c]).ranges.len() <= 100 by {
            if c < pushes_of(front).len() {
                assert(pushes_of(built)[c] == pushes_of(front)[c]);
            } else {
                assert(pushes_of(built)[c] == own[c - pushes_of(front).len()]);
            }
        }
    }
}

/// Where a range of a buffer is returned: behind those of the buffers before, in the
/// excerpt of the stretch that counts it, with the same ends in the buffer.
pub proof fn lemma_pushed_range(
    built: Seq<BuiltExcerpts>,
    first: int,
    b: int,
    g: int,
    k: int,
) -> (p: int)
    requires
        0 <= b < built.len(),
        0 <= g < built[b].excerpt_ranges@.len(),
        built[b].range_counts@.len() == built[b].excerpt_ranges@.len(),
        counted(built[b].range_counts@, g) <= k < counted(built[b].range_counts@, g + 1),
        0 <= k < built[b].ranges@.len(),
    ensures
        ({
            let r = all_ranges_in(built, first);
            let id = ExcerptId((first + total_count(built.take(b)) + g) as usize);
            &&& p == all_ranges_in(built.take(b), first).len() + k
            &&& 0 <= p < r.len()
            &&& r[p].start == (Anchor {
                buffer_id: Some(built[b].buffer.remote_id),
                excerpt_id: id,
                text_anchor: built[b].ranges@[k].start,
            })
            &&& r[p].end == (Anchor {
                buffer_id: Some(built[b].buffer.remote_id),
                excerpt_id: id,
                text_anchor: built[b].ranges@[k].end,
            })
        }),
    decreases built.len(),
{
    let front = built.drop_last();
    if b < front.len() {
        let p = lemma_pushed_range(front, first, b, g, k);
        assert(front.take(b) =~= built.take(b));
        p
    } else {
        assert(built.take(b) =~= front);
        let ids = ids_from(first + total_count(front), built[b].excerpt_ranges@.len());
        lemma_repeated(ids, built[b].range_counts@, g, k);
        all_ranges_in(front, first).len() + k
    }
}

/// All ranges of all buffers are returned, and no others.
pub proof fn lemma_pushed_range_count(built: Seq<BuiltExcerpts>, first: int)
    requires
        built.len() > 0,
    ensures
        all_ranges_in(built, first).len() == all_ranges_in(built.drop_last(), first).len()
            + built.last().ranges@.len(),
        all_ranges_in(seq![], first).len() == 0,
{
}

/// Each anchor in a buffer is waited for in that buffer, in order; those in none are not.
pub proof fn lemma_waits_for(anchors: Seq<Anchor>)
    ensures
        waits_for(anchors) == anchors.filter(|anchor: Anchor| anchor.buffer_id is Some).map_values(
            |anchor: Anchor| (anchor.buffer_id->0, anchor.text_anchor),
        ),
    decreases anchors.len(),
{
    reveal(Seq::filter);
    let some = |anchor: Anchor| anchor.buffer_id is Some;
    let told = |anchor: Anchor| (anchor.buffer_id->0, anchor.text_anchor);
    if anchors.len() > 0 {
        lemma_waits_for(anchors.drop_last());
        assert(anchors.filter(some).map_values(told) =~= waits_for(anchors));
    } else {
        assert(anchors.filter(some).map_values(told) =~= waits_for(anchors));
    }
}

/// Pushes leave the excerpts that were there as they are, and show all that is pushed behind
/// them: one excerpt for each stretch, in their order, of the buffer that the stretch is of,
/// and under the next identifier.
#[verifier::rlimit(50)]
pub proof fn lemma_pushed_excerpts(
    before: MultiBuffer,
    after: MultiBuffer,
    pushes: Seq<Push>,
    j: int,
)
    requires
        becomes_well(before, after, pushes),
        next_id(before.snapshot.excerpt_ids@) + all_pushed(pushes).len() <= usize::MAX,
        0 <= j,
    ensures
        ({
            let es = before.snapshot.excerpts@;
            let all = after.snapshot.excerpts@;
            let n = es.len() as int;
            let first = next_id(before.snapshot.excerpt_ids@);
            &&& before.wf()
            &&& after.wf()
            &&& all.len() == n + all_pushed(pushes).len()
            &&& next_id(after.snapshot.excerpt_ids@) == first + all_pushed(pushes).len()
            &&& j < n ==> same_but_newline(all[j], es[j])
            &&& n <= j < all.len() ==> {
                let (buffer_id, range) = all_pushed(pushes)[j - n];
                &&& all[j].id.0 == first + j - n
                &&& all[j].buffer_id == buffer_id
                &&& all[j].buffer.remote_id == buffer_id
                &&& all[j].range == anchored(range, *all[j].buffer)
            }
        }),
    decreases pushes.len(),
{
    let trace = choose|trace: Seq<MultiBuffer>|
        {
            &&& #[trigger] goes_through(trace, pushes)
            &&& trace[0] == before
            &&& trace.last() == after
            &&& all_wf(trace)
        };
    let es = before.snapshot.excerpts@;
    let n = es.len() as int;
    assert(trace[0].wf());
    if pushes.len() > 0 {
        let c = pushes.len() - 1;
        let front = pushes.drop_last();
        let push = pushes.last();
        let middle = trace[c];
        let head = trace.drop_last();
        assert(goes_through(head, front)) by {
            assert forall|d: int| 0 <= d < front.len() implies is_pushed(
                head[d],
                head[d + 1],
                #[trigger] front[d],
            ) by {
                assert(is_pushed(trace[d], trace[d + 1], pushes[d]));
            }
        }
        assert forall|d: int| 0 <= d < head.len() implies (#[trigger] head[d]).wf() by {
            assert(trace[d].wf());
        }
        assert(head[0] == before && head.last() == middle);
        assert(becomes_well(before, middle, front));
        assert(all_pushed(pushes).len() == all_pushed(front).len() + push.ranges.len());
        lemma_pushed_excerpts(before, middle, front, j);
        assert(is_pushed(trace[c], trace[c + 1], pushes[c]));
        assert(trace[c + 1] == after);
        assert(trace[c + 1].wf());
        lemma_pushed(middle, after, push);
        let mid = middle.snapshot.excerpts@;
        let all = after.snapshot.excerpts@;
        let ranges = numbered(middle.snapshot.excerpt_ids@, push.ranges);
        let k = ranges.len() as int;
        middle.lemma_insertion_index(ExcerptId(usize::MAX), 0);
        let p = mid.len() as int;
        if k > 0 {
            reveal(spliced);
            let news = all.subrange(p, p + k);
            let kept = with_last_newline(mid.take(p), true);
            assert(all == kept + news + mid.skip(p));
            assert(mid.take(p) =~= mid);
            if j < p {
                assert(all[j] == kept[j]);
                assert(same_but_newline(all[j], mid[j]));
            } else if j < p + k {
                assert(news[j - p] == all[j]);
                assert(all_pushed(pushes)[j - n] == (
                    push.buffer.remote_id,
                    push.ranges[j - p],
                ));
            }
        }
    } else {
        assert(trace.last() == trace[0]);
    }
}

} // verus!
