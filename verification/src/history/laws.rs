//! What holds of transactions that are grouped, found and merged.

use vstd::prelude::*;

use crate::buffer::BufferId;
use crate::history::{
    count_until, entry_from, first_with_id, group_count, grouped, has_entry, inserted, inserted_all,
    last_with_id, lemma_count_until, one_per_buffer, or_insert, or_insert_all,
    or_insert_transactions, TransactionId, TransactionModel,
};

verus! {

/// What is found for a buffer is its first entry, and nothing is found only where it
/// has none.
pub proof fn lemma_entry_found(
    entries: Seq<(BufferId, TransactionId)>,
    buffer_id: BufferId,
)
    ensures
        match entry_from(entries, buffer_id, 0) {
            Some(id) => exists|k: int|
                0 <= k < entries.len() && #[trigger] entries[k] == (buffer_id, id) && forall|j: int|
                    0 <= j < k ==> (#[trigger] entries[j]).0 != buffer_id,
            None => forall|j: int|
                0 <= j < entries.len() ==> (#[trigger] entries[j]).0 != buffer_id,
        },
{
    lemma_entry_found_from(entries, buffer_id, 0);
}

proof fn lemma_entry_found_from(
    entries: Seq<(BufferId, TransactionId)>,
    buffer_id: BufferId,
    from: int,
)
    requires
        0 <= from <= entries.len(),
        forall|j: int| 0 <= j < from ==> (#[trigger] entries[j]).0 != buffer_id,
    ensures
        match entry_from(entries, buffer_id, from) {
            Some(id) => exists|k: int|
                0 <= k < entries.len() && #[trigger] entries[k] == (buffer_id, id) && forall|j: int|
                    0 <= j < k ==> (#[trigger] entries[j]).0 != buffer_id,
            None => forall|j: int|
                0 <= j < entries.len() ==> (#[trigger] entries[j]).0 != buffer_id,
        },
    decreases entries.len() - from,
{
    if from < entries.len() {
        if entries[from].0 == buffer_id {
            assert(entries[from] == (buffer_id, entries[from].1));
        } else {
            lemma_entry_found_from(entries, buffer_id, from + 1);
        }
    }
}

proof fn lemma_or_insert(
    entries: Seq<(BufferId, TransactionId)>,
    entry: (BufferId, TransactionId),
    buffer_id: BufferId,
)
    ensures
        ({
            let r = or_insert(entries, entry);
            &&& has_entry(r, buffer_id) == (has_entry(entries, buffer_id) || entry.0 == buffer_id)
            &&& entry_from(r, buffer_id, 0) == if has_entry(entries, buffer_id) {
                entry_from(entries, buffer_id, 0)
            } else if entry.0 == buffer_id {
                Some(entry.1)
            } else {
                None
            }
            &&& one_per_buffer(entries) ==> one_per_buffer(r)
        }),
{
    let r = or_insert(entries, entry);
    lemma_entry_found(entries, buffer_id);
    lemma_entry_found(r, buffer_id);
    if has_entry(entries, buffer_id) {
        let k = choose|k: int| 0 <= k < entries.len() && (#[trigger] entries[k]).0 == buffer_id;
        assert(r[k] == entries[k]);
        let id = entry_from(entries, buffer_id, 0)->0;
        let a = choose|k: int|
            0 <= k < entries.len() && #[trigger] entries[k] == (buffer_id, id) && forall|j: int|
                0 <= j < k ==> (#[trigger] entries[j]).0 != buffer_id;
        assert(r[a] == entries[a]);
        let other = entry_from(r, buffer_id, 0)->0;
        let b = choose|k: int|
            0 <= k < r.len() && #[trigger] r[k] == (buffer_id, other) && forall|j: int|
                0 <= j < k ==> (#[trigger] r[j]).0 != buffer_id;
        if b < a {
            assert(entries[b].0 != buffer_id);
        } else if a < b {
            assert(r[a].0 != buffer_id);
        }
    } else {
        if entry.0 == buffer_id {
            assert(r[entries.len() as int].0 == buffer_id);
        }
        if has_entry(r, buffer_id) {
            let k = choose|k: int| 0 <= k < r.len() && (#[trigger] r[k]).0 == buffer_id;
            assert(k < entries.len() ==> entries[k].0 == buffer_id);
        }
    }
}

/// Entries that are added leave a buffer with the entry that it had. A buffer without
/// one gets the first of those added; no other buffer gets any.
pub proof fn lemma_added_entries(
    entries: Seq<(BufferId, TransactionId)>,
    more: Seq<(BufferId, TransactionId)>,
    buffer_id: BufferId,
)
    ensures
        ({
            let r = or_insert_all(entries, more);
            &&& has_entry(r, buffer_id) == (has_entry(entries, buffer_id) || has_entry(
                more,
                buffer_id,
            ))
            &&& entry_from(r, buffer_id, 0) == if has_entry(entries, buffer_id) {
                entry_from(entries, buffer_id, 0)
            } else {
                entry_from(more, buffer_id, 0)
            }
            &&& one_per_buffer(entries) ==> one_per_buffer(r)
        }),
    decreases more.len(),
{
    if more.len() > 0 {
        let front = more.drop_last();
        lemma_added_entries(entries, front, buffer_id);
        lemma_or_insert(or_insert_all(entries, front), more.last(), buffer_id);
        if has_entry(front, buffer_id) {
            let k = choose|k: int| 0 <= k < front.len() && (#[trigger] front[k]).0 == buffer_id;
            assert(more[k].0 == buffer_id);
        }
        if more.last().0 == buffer_id {
            assert(more[more.len() - 1].0 == buffer_id);
        }
        if has_entry(more, buffer_id) {
            let k = choose|k: int| 0 <= k < more.len() && (#[trigger] more[k]).0 == buffer_id;
            assert(k < front.len() ==> front[k].0 == buffer_id);
        }
        lemma_or_insert(front, more.last(), buffer_id);
        assert(front.push(more.last()) =~= more);
        lemma_entry_found(more, buffer_id);
        lemma_entry_found(front, buffer_id);
        if has_entry(front, buffer_id) {
            let id = entry_from(front, buffer_id, 0)->0;
            let a = choose|k: int|
                0 <= k < front.len() && #[trigger] front[k] == (buffer_id, id) && forall|j: int|
                    0 <= j < k ==> (#[trigger] front[j]).0 != buffer_id;
            assert(more[a] == front[a]);
            let other = entry_from(more, buffer_id, 0)->0;
            let b = choose|k: int|
                0 <= k < more.len() && #[trigger] more[k] == (buffer_id, other) && forall|j: int|
                    0 <= j < k ==> (#[trigger] more[j]).0 != buffer_id;
            if b < a {
                assert(front[b].0 != buffer_id);
            } else if a < b {
                assert(more[a].0 != buffer_id);
            }
        }
    } else {
        lemma_entry_found(entries, buffer_id);
        lemma_entry_found(more, buffer_id);
    }
}

/// Setting entries leaves each buffer with the last that was set for it, or with what
/// it had where none was.
#[verifier::rlimit(50)]
pub proof fn lemma_set_entries(
    entries: Seq<(BufferId, TransactionId)>,
    more: Seq<(BufferId, TransactionId)>,
    buffer_id: BufferId,
    id: TransactionId,
)
    requires
        one_per_buffer(entries),
    ensures
        one_per_buffer(inserted_all(entries, more)),
        inserted_all(entries, more).contains((buffer_id, id)) <==> ((exists|k: int|
            0 <= k < more.len() && #[trigger] more[k] == (buffer_id, id) && forall|j: int|
                k < j < more.len() ==> (#[trigger] more[j]).0 != buffer_id) || (entries.contains(
            (buffer_id, id),
        ) && !has_entry(more, buffer_id))),
    decreases more.len(),
{
    if more.len() > 0 {
        let front = more.drop_last();
        let last = more.last();
        lemma_set_entries(entries, front, buffer_id, id);
        let before = inserted_all(entries, front);
        let after = inserted_all(entries, more);
        assert(after == inserted(before, last));
        assert(more[more.len() - 1] == last);
        if has_entry(before, last.0) {
            assert forall|a: int, b: int| 0 <= a < b < after.len() implies (#[trigger] after[a]).0
                != (#[trigger] after[b]).0 by {
                assert(before[a].0 != before[b].0);
            }
        } else {
            assert forall|a: int, b: int| 0 <= a < b < after.len() implies (#[trigger] after[a]).0
                != (#[trigger] after[b]).0 by {
                assert(before[a].0 != last.0);
                if b < before.len() {
                    assert(before[a].0 != before[b].0);
                }
            }
        }
        if last.0 == buffer_id {
            if after.contains((buffer_id, id)) {
                let k = choose|k: int| 0 <= k < after.len() && after[k] == (buffer_id, id);
                if k < before.len() {
                    assert(before[k].0 == last.0);
                    assert(has_entry(before, last.0));
                }
                assert(last == (buffer_id, id));
            }
            if last == (buffer_id, id) {
                if has_entry(before, last.0) {
                    let k = choose|k: int|
                        0 <= k < before.len() && (#[trigger] before[k]).0 == last.0;
                    assert(after[k] == last);
                } else {
                    assert(after[before.len() as int] == last);
                }
            }
        } else {
            if before.contains((buffer_id, id)) {
                let k = choose|k: int| 0 <= k < before.len() && before[k] == (buffer_id, id);
                assert(after[k] == before[k]);
            }
            if after.contains((buffer_id, id)) {
                let k = choose|k: int| 0 <= k < after.len() && after[k] == (buffer_id, id);
                assert(before[k] == after[k]);
            }
            assert(has_entry(more, buffer_id) == has_entry(front, buffer_id)) by {
                if has_entry(front, buffer_id) {
                    let k = choose|k: int|
                        0 <= k < front.len() && (#[trigger] front[k]).0 == buffer_id;
                    assert(more[k].0 == buffer_id);
                }
                if has_entry(more, buffer_id) {
                    let k = choose|k: int|
                        0 <= k < more.len() && (#[trigger] more[k]).0 == buffer_id;
                    assert(front[k].0 == buffer_id);
                }
            }
            if exists|k: int|
                0 <= k < front.len() && #[trigger] front[k] == (buffer_id, id) && forall|j: int|
                    k < j < front.len() ==> (#[trigger] front[j]).0 != buffer_id {
                let k = choose|k: int|
                    0 <= k < front.len() && #[trigger] front[k] == (buffer_id, id) && forall|j: int|
                        k < j < front.len() ==> (#[trigger] front[j]).0 != buffer_id;
                assert(more[k] == (buffer_id, id));
                assert forall|j: int| k < j < more.len() implies (#[trigger] more[j]).0
                    != buffer_id by {
                    assert(j < front.len() ==> front[j].0 != buffer_id);
                }
            }
            if exists|k: int|
                0 <= k < more.len() && #[trigger] more[k] == (buffer_id, id) && forall|j: int|
                    k < j < more.len() ==> (#[trigger] more[j]).0 != buffer_id {
                let k = choose|k: int|
                    0 <= k < more.len() && #[trigger] more[k] == (buffer_id, id) && forall|j: int|
                        k < j < more.len() ==> (#[trigger] more[j]).0 != buffer_id;
                assert(front[k] == (buffer_id, id));
                assert forall|j: int| k < j < front.len() implies (#[trigger] front[j]).0
                    != buffer_id by {
                    assert(more[j].0 != buffer_id);
                }
            }
        }
    }
}

/// Whether the `i`-th is the first of the transactions to hold an entry of a buffer.
pub open spec fn first_to_hold(
    ts: Seq<TransactionModel>,
    i: int,
    buffer_id: BufferId,
) -> bool {
    &&& 0 <= i < ts.len()
    &&& has_entry(ts[i].buffer_transactions, buffer_id)
    &&& forall|j: int|
        0 <= j < i ==> !has_entry((#[trigger] ts[j]).buffer_transactions, buffer_id)
}

#[verifier::rlimit(50)]
proof fn lemma_added_transactions(
    entries: Seq<(BufferId, TransactionId)>,
    ts: Seq<TransactionModel>,
    buffer_id: BufferId,
)
    ensures
        ({
            let r = or_insert_transactions(entries, ts);
            &&& has_entry(entries, buffer_id) ==> entry_from(r, buffer_id, 0) == entry_from(
                entries,
                buffer_id,
                0,
            )
            &&& forall|i: int|
                !has_entry(entries, buffer_id) && #[trigger] first_to_hold(ts, i, buffer_id)
                    ==> entry_from(r, buffer_id, 0) == entry_from(
                    ts[i].buffer_transactions,
                    buffer_id,
                    0,
                )
            &&& has_entry(r, buffer_id) <==> (has_entry(entries, buffer_id) || exists|i: int|
                first_to_hold(ts, i, buffer_id))
            &&& one_per_buffer(entries) ==> one_per_buffer(r)
        }),
    decreases ts.len(),
{
    let r = or_insert_transactions(entries, ts);
    if ts.len() > 0 {
        let front = ts.drop_last();
        let before = or_insert_transactions(entries, front);
        let n = front.len() as int;
        lemma_added_transactions(entries, front, buffer_id);
        lemma_added_entries(before, ts.last().buffer_transactions, buffer_id);
        assert forall|i: int| 0 <= i < n implies #[trigger] first_to_hold(ts, i, buffer_id)
            == first_to_hold(front, i, buffer_id) by {
            if first_to_hold(ts, i, buffer_id) {
                assert forall|j: int| 0 <= j < i implies !has_entry(
                    (#[trigger] front[j]).buffer_transactions,
                    buffer_id,
                ) by {
                    assert(!has_entry(ts[j].buffer_transactions, buffer_id));
                }
            }
            if first_to_hold(front, i, buffer_id) {
                assert forall|j: int| 0 <= j < i implies !has_entry(
                    (#[trigger] ts[j]).buffer_transactions,
                    buffer_id,
                ) by {
                    assert(!has_entry(front[j].buffer_transactions, buffer_id));
                }
            }
        }
        if exists|i: int| first_to_hold(front, i, buffer_id) {
            let i = choose|i: int| first_to_hold(front, i, buffer_id);
            assert(first_to_hold(ts, i, buffer_id));
            assert(!first_to_hold(ts, n, buffer_id)) by {
                assert(has_entry(ts[i].buffer_transactions, buffer_id));
            }
        } else {
            assert(forall|j: int|
                0 <= j < n ==> !has_entry((#[trigger] ts[j]).buffer_transactions, buffer_id)) by {
                assert forall|j: int| 0 <= j < n implies !has_entry(
                    (#[trigger] ts[j]).buffer_transactions,
                    buffer_id,
                ) by {
                    lemma_none_holds(front, j, buffer_id);
                    assert(ts[j] == front[j]);
                }
            }
            if has_entry(ts.last().buffer_transactions, buffer_id) {
                assert(first_to_hold(ts, n, buffer_id));
            }
        }
        lemma_entry_found(before, buffer_id);
        lemma_entry_found(ts.last().buffer_transactions, buffer_id);
        assert forall|i: int|
            !has_entry(entries, buffer_id) && #[trigger] first_to_hold(
                ts,
                i,
                buffer_id,
            ) implies entry_from(r, buffer_id, 0) == entry_from(
            ts[i].buffer_transactions,
            buffer_id,
            0,
        ) by {
            if i < n {
                assert(first_to_hold(front, i, buffer_id));
            }
        }
    }
}

/// Where none is the first to hold an entry of a buffer, none holds any.
pub proof fn lemma_none_holds(ts: Seq<TransactionModel>, j: int, buffer_id: BufferId)
    requires
        0 <= j < ts.len(),
        !(exists|i: int| first_to_hold(ts, i, buffer_id)),
    ensures
        forall|k: int|
            0 <= k <= j ==> !has_entry((#[trigger] ts[k]).buffer_transactions, buffer_id),
    decreases j,
{
    if j > 0 {
        lemma_none_holds(ts, j - 1, buffer_id);
    }
    if has_entry(ts[j].buffer_transactions, buffer_id) {
        assert(first_to_hold(ts, j, buffer_id));
    }
}

/// Merging the last transactions into the one before them leaves all before that one as
/// they were. The merged one keeps its identifier, its start and whether later ones stay
/// apart, and ends when the last of them ended. It holds for each buffer the entry of the
/// first of them that has one for it, so that undoing it goes back before all of them.
#[verifier::rlimit(50)]
pub proof fn lemma_merged_transactions(
    ts: Seq<TransactionModel>,
    n: int,
    buffer_id: BufferId,
)
    requires
        0 <= n < ts.len(),
    ensures
        ({
            let r = grouped(ts, n);
            let at = ts.len() - n - 1;
            let all = ts.skip(at);
            &&& r.len() == ts.len() - n
            &&& forall|i: int| 0 <= i < at ==> #[trigger] r[i] == ts[i]
            &&& r[at].id == ts[at].id
            &&& r[at].first_edit_at == ts[at].first_edit_at
            &&& r[at].suppress_grouping == ts[at].suppress_grouping
            &&& r[at].last_edit_at == ts[ts.len() - 1].last_edit_at
            &&& n == 0 ==> r == ts
            &&& forall|i: int| #[trigger]
                first_to_hold(all, i, buffer_id) ==> entry_from(
                    r[at].buffer_transactions,
                    buffer_id,
                    0,
                ) == entry_from(all[i].buffer_transactions, buffer_id, 0)
            &&& has_entry(r[at].buffer_transactions, buffer_id) <==> exists|i: int|
                first_to_hold(all, i, buffer_id)
            &&& one_per_buffer(ts[at].buffer_transactions) ==> one_per_buffer(
                r[at].buffer_transactions,
            )
        }),
{
    let r = grouped(ts, n);
    let at = ts.len() - n - 1;
    let all = ts.skip(at);
    let rest = ts.skip(at + 1);
    assert(all.drop_first() =~= rest);
    assert(all[0] == ts[at]);
    if n == 0 {
        assert(r =~= ts);
    }
    assert(or_insert_transactions(ts[at].buffer_transactions, Seq::<TransactionModel>::empty())
        == ts[at].buffer_transactions);
    if n == 0 {
        assert(rest =~= Seq::<TransactionModel>::empty());
    }
    assert(r[at].buffer_transactions == or_insert_transactions(
        ts[at].buffer_transactions,
        rest,
    ));
    lemma_added_transactions(ts[at].buffer_transactions, rest, buffer_id);
    assert forall|i: int| 0 <= i < rest.len() && !has_entry(
        ts[at].buffer_transactions,
        buffer_id,
    ) implies first_to_hold(all, i + 1, buffer_id) == #[trigger] first_to_hold(
        rest,
        i,
        buffer_id,
    ) by {
        assert(all[i + 1] == rest[i]);
        if first_to_hold(all, i + 1, buffer_id) {
            assert forall|j: int| 0 <= j < i implies !has_entry(
                (#[trigger] rest[j]).buffer_transactions,
                buffer_id,
            ) by {
                assert(rest[j] == all[j + 1]);
            }
        }
        if first_to_hold(rest, i, buffer_id) {
            assert forall|j: int| 0 <= j < i + 1 implies !has_entry(
                (#[trigger] all[j]).buffer_transactions,
                buffer_id,
            ) by {
                if j > 0 {
                    assert(all[j] == rest[j - 1]);
                }
            }
        }
    }
    if has_entry(ts[at].buffer_transactions, buffer_id) {
        assert(first_to_hold(all, 0, buffer_id));
        assert forall|i: int| #[trigger] first_to_hold(all, i, buffer_id) implies i == 0 by {
            if i > 0 {
                assert(!has_entry(all[0].buffer_transactions, buffer_id));
            }
        }
    } else {
        assert forall|i: int| #[trigger] first_to_hold(all, i, buffer_id) implies i > 0
            && first_to_hold(rest, i - 1, buffer_id) by {
            if i > 0 {
                assert(first_to_hold(all, (i - 1) + 1, buffer_id) == first_to_hold(
                    rest,
                    i - 1,
                    buffer_id,
                ));
            }
        }
        assert forall|i: int| #[trigger] first_to_hold(rest, i, buffer_id) implies first_to_hold(
            all,
            i + 1,
            buffer_id,
        ) by {}
    }
}

/// Whether a transaction starts no longer than the interval after the one before it
/// ended, and is not to stay apart from it.
pub open spec fn follows_closely(ts: Seq<TransactionModel>, j: int, interval: u64) -> bool {
    !ts[j - 1].suppress_grouping && ts[j].first_edit_at - ts[j - 1].last_edit_at <= interval
}

/// Grouping merges into one just the longest run at the end of the transactions in which
/// each later one follows the one before closely. So a transaction that starts more than
/// the interval after the one before stays apart, and both stay as they were.
pub proof fn lemma_grouping(ts: Seq<TransactionModel>, interval: u64)
    ensures
        ({
            let r = grouped(ts, group_count(ts, interval));
            &&& ts.len() == 0 ==> r.len() == 0
            &&& ts.len() > 0 ==> 1 <= r.len() <= ts.len()
            &&& forall|j: int|
                r.len() <= j < ts.len() ==> #[trigger] follows_closely(ts, j, interval)
            &&& r.len() >= 2 ==> !follows_closely(ts, r.len() - 1, interval)
            &&& ts.len() > 0 ==> r.last().id == ts[r.len() - 1].id && r.last().first_edit_at
                == ts[r.len() - 1].first_edit_at && r.last().last_edit_at
                == ts.last().last_edit_at
            &&& forall|i: int| 0 <= i < r.len() - 1 ==> #[trigger] r[i] == ts[i]
            &&& r.len() == ts.len() ==> r == ts
            &&& ts.len() >= 2 && ts.last().first_edit_at - ts[ts.len() - 2].last_edit_at > interval
                ==> r == ts
        }),
{
    let n = group_count(ts, interval);
    lemma_counted_group(ts, interval);
    if ts.len() > 0 {
        lemma_merged_transactions(ts, n, BufferId(0));
        let r = grouped(ts, n);
        assert(r.len() == ts.len() - n);
        assert(r.last() == r[ts.len() - n - 1]);
        assert(ts.last() == ts[ts.len() - 1]);
        assert(r.len() == ts.len() ==> r == ts);
        if ts.len() >= 2 {
            let previous = ts[ts.len() - 2];
            if ts.last().first_edit_at - previous.last_edit_at > interval {
                assert(!follows_closely(ts, ts.len() - 1, interval));
            }
        }
    } else {
        assert(grouped(ts, n) =~= ts);
    }
}

/// What is counted for grouping.
proof fn lemma_counted_group(ts: Seq<TransactionModel>, interval: u64)
    ensures
        ({
            let n = group_count(ts, interval);
            let kept = ts.len() - n;
            &&& ts.len() == 0 ==> n == 0
            &&& ts.len() > 0 ==> 0 <= n < ts.len()
            &&& forall|j: int|
                kept <= j < ts.len() ==> #[trigger] follows_closely(ts, j, interval)
            &&& kept >= 2 ==> !follows_closely(ts, kept - 1, interval)
        }),
    decreases ts.len(),
{
    let n = group_count(ts, interval);
    let kept = ts.len() - n;
    if ts.len() >= 2 {
        let front = ts.drop_last();
        lemma_counted_group(front, interval);
        if n > 0 {
            assert forall|j: int| kept <= j < ts.len() implies #[trigger] follows_closely(
                ts,
                j,
                interval,
            ) by {
                if j < front.len() {
                    assert(follows_closely(front, j, interval));
                }
            }
        }
    }
}

/// All since a transaction are merged into it just where no later one has its
/// identifier, and none of the later ones is to stay apart from those behind it.
pub proof fn lemma_counted_until(ts: Seq<TransactionModel>, id: TransactionId, at: int)
    requires
        0 <= at < ts.len(),
    ensures
        count_until(ts, id) == Some(ts.len() - 1 - at) <==> ts[at].id == id && forall|i: int|
            at < i < ts.len() ==> (#[trigger] ts[i]).id != id && !ts[i].suppress_grouping,
        match count_until(ts, id) {
            Some(n) => 0 <= n < ts.len(),
            None => true,
        },
    decreases ts.len(),
{
    lemma_count_until(ts, id);
    if at < ts.len() - 1 {
        let front = ts.drop_last();
        lemma_counted_until(front, id, at);
        assert(ts[ts.len() - 1] == ts.last());
        if forall|i: int|
            at < i < ts.len() ==> (#[trigger] ts[i]).id != id && !ts[i].suppress_grouping {
            assert forall|i: int| at < i < front.len() implies (#[trigger] front[i]).id != id
                && !front[i].suppress_grouping by {
                assert(ts[i].id != id);
            }
        }
        if forall|i: int|
            at < i < front.len() ==> (#[trigger] front[i]).id != id && !front[i].suppress_grouping {
            assert forall|i: int| at < i < front.len() implies (#[trigger] ts[i]).id != id
                && !ts[i].suppress_grouping by {
                assert(front[i].id != id);
            }
        }
    } else if ts.last().id != id {
        match count_until(ts.drop_last(), id) {
            Some(n) => {
                lemma_count_until(ts.drop_last(), id);
            },
            None => {},
        }
    }
}

/// Looking for a transaction from the end finds the last with the identifier, and none
/// only where there is none.
pub proof fn lemma_found_last(ts: Seq<TransactionModel>, id: TransactionId)
    ensures
        ({
            let at = last_with_id(ts, id);
            &&& -1 <= at < ts.len()
            &&& at >= 0 ==> ts[at].id == id
            &&& forall|i: int| at < i < ts.len() ==> (#[trigger] ts[i]).id != id
        }),
    decreases ts.len(),
{
    if ts.len() > 0 && ts.last().id != id {
        let front = ts.drop_last();
        lemma_found_last(front, id);
        assert forall|i: int| last_with_id(ts, id) < i < ts.len() implies (#[trigger] ts[i]).id
            != id by {
            assert(i < front.len() ==> front[i].id != id);
        }
    }
}

/// Looking for a transaction from the start finds the first with the identifier, and
/// none only where there is none.
pub proof fn lemma_found_first(ts: Seq<TransactionModel>, id: TransactionId, from: int)
    requires
        0 <= from <= ts.len(),
    ensures
        ({
            let at = first_with_id(ts, id, from);
            &&& from <= at <= ts.len()
            &&& at < ts.len() ==> ts[at].id == id
            &&& forall|i: int| from <= i < at ==> (#[trigger] ts[i]).id != id
        }),
    decreases ts.len() - from,
{
    if from < ts.len() && ts[from].id != id {
        lemma_found_first(ts, id, from + 1);
    }
}

} // verus!
