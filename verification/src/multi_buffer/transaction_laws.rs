//! What holds of transactions over several buffers.

use vstd::prelude::*;

use crate::buffer::BufferId;
use crate::history::laws::{
    first_to_hold, follows_closely, lemma_added_entries, lemma_found_last, lemma_grouping,
    lemma_merged_transactions, lemma_none_holds,
};
use crate::history::{
    entry_from, group_count, grouped, has_entry, last_with_id, lemma_group_count, or_insert_all,
    with_started, without_last, TransactionId, TransactionModel,
};
use crate::multi_buffer::transactions::{
    answered, asks_for_next, closed_entries, ended, finalized, find_last, forgotten, is_known,
    known_entries, merges, moved, some_changed, with_answers, BufferReply, HistoryAction,
};
use crate::multi_buffer::BufferState;

verus! {

/// Undoing, and redoing, takes the latest transaction of one stack and puts it on top of
/// the other. All others stay where they are.
pub proof fn lemma_moves_one(from: Seq<TransactionModel>, to: Seq<TransactionModel>)
    ensures
        ({
            let (left, grown) = moved(from, to);
            &&& from.len() == 0 ==> left == from && grown == to
            &&& from.len() > 0 ==> {
                &&& left == from.take(from.len() - 1)
                &&& grown.len() == to.len() + 1
                &&& grown.take(to.len() as int) == to
                &&& grown[to.len() as int] == from[from.len() - 1]
            }
        }),
{
    let (left, grown) = moved(from, to);
    if from.len() > 0 {
        assert(left =~= from.take(from.len() - 1));
        assert(grown.take(to.len() as int) =~= to);
    }
}

/// The entries of known buffers are all asked for, in their order, and no others.
pub proof fn lemma_known_entries(
    states: Seq<BufferState>,
    entries: Seq<(BufferId, TransactionId)>,
)
    ensures
        known_entries(states, entries) == entries.filter(
            |entry: (BufferId, TransactionId)| is_known(states, entry.0),
        ),
    decreases entries.len(),
{
    reveal(Seq::filter);
    if entries.len() > 0 {
        lemma_known_entries(states, entries.drop_last());
    }
}

proof fn lemma_known_entry(
    states: Seq<BufferState>,
    entries: Seq<(BufferId, TransactionId)>,
    entry: (BufferId, TransactionId),
)
    ensures
        known_entries(states, entries).contains(entry) <==> entries.contains(entry) && is_known(
            states,
            entry.0,
        ),
    decreases entries.len(),
{
    if entries.len() > 0 {
        let front = entries.drop_last();
        let before = known_entries(states, front);
        let after = known_entries(states, entries);
        lemma_known_entry(states, front, entry);
        if before.contains(entry) {
            let k = choose|k: int| 0 <= k < before.len() && before[k] == entry;
            assert(after[k] == entry);
            let m = choose|m: int| 0 <= m < front.len() && front[m] == entry;
            assert(entries[m] == entry);
        }
        if after.contains(entry) {
            let k = choose|k: int| 0 <= k < after.len() && after[k] == entry;
            if k < before.len() {
                assert(before[k] == entry);
            } else {
                assert(entries[entries.len() - 1] == entry);
            }
        }
        if entries.contains(entry) && is_known(states, entry.0) {
            let m = choose|m: int| 0 <= m < entries.len() && entries[m] == entry;
            if m < front.len() {
                assert(front[m] == entry);
            } else {
                assert(after[before.len() as int] == entry);
            }
        }
    }
}

/// Undoing asks a buffer to go back to one of its transactions just where the latest
/// transaction holds that one and the buffer is known; other transactions have no part
/// in it.
pub proof fn lemma_asks_for_latest(
    action: HistoryAction,
    states: Seq<BufferState>,
    from: Seq<TransactionModel>,
    buffer_id: BufferId,
    id: TransactionId,
)
    requires
        asks_for_next(action, states, from),
    ensures
        from.len() == 0 ==> action == HistoryAction::Done(None),
        from.len() > 0 ==> (action matches HistoryAction::AskBuffers(asked) && (asked@.contains(
            (buffer_id, id),
        ) <==> from[from.len() - 1].buffer_transactions.contains((buffer_id, id)) && (exists|
            s: int,
        |
            0 <= s < states.len() && (#[trigger] states[s]).buffer.remote_id == buffer_id))),
{
    if from.len() > 0 {
        lemma_known_entry(states, from.last().buffer_transactions, (buffer_id, id));
    }
}

/// After the buffers have replied, each entry is still of the same buffer. It names the
/// transaction that the buffer's reply names, and what it named before where the reply
/// names none or the buffer is not known.
pub proof fn lemma_answers(
    states: Seq<BufferState>,
    entries: Seq<(BufferId, TransactionId)>,
    replies: Seq<BufferReply>,
    k: int,
)
    requires
        0 <= k < entries.len(),
    ensures
        ({
            let r = answered(states, entries, replies);
            let n = entries.take(k).filter(
                |entry: (BufferId, TransactionId)| is_known(states, entry.0),
            ).len() as int;
            &&& r.len() == entries.len()
            &&& r[k].0 == entries[k].0
            &&& r[k].1 == if is_known(states, entries[k].0) && replies[n].top is Some {
                replies[n].top->0
            } else {
                entries[k].1
            }
        }),
    decreases entries.len(),
{
    let front = entries.drop_last();
    if k < front.len() {
        lemma_answers(states, front, replies, k);
        assert(front.take(k) =~= entries.take(k));
    } else {
        lemma_answered_len(states, front, replies);
        assert(entries.take(k) =~= front);
        lemma_known_entries(states, front);
    }
}

proof fn lemma_answered_len(
    states: Seq<BufferState>,
    entries: Seq<(BufferId, TransactionId)>,
    replies: Seq<BufferReply>,
)
    ensures
        answered(states, entries, replies).len() == entries.len(),
    decreases entries.len(),
{
    if entries.len() > 0 {
        lemma_answered_len(states, entries.drop_last(), replies);
    }
}

/// A transaction that ends holds what each buffer closed, and nothing else.
pub proof fn lemma_closed_entries(
    states: Seq<BufferState>,
    closed: Seq<Option<TransactionId>>,
    buffer_id: BufferId,
    id: TransactionId,
)
    requires
        closed.len() == states.len(),
    ensures
        closed_entries(states, closed).contains((buffer_id, id)) <==> exists|s: int|
            0 <= s < states.len() && (#[trigger] states[s]).buffer.remote_id == buffer_id
                && closed[s] == Some(id),
{
    lemma_closed_before(states, closed, buffer_id, id);
}

proof fn lemma_closed_before(
    states: Seq<BufferState>,
    closed: Seq<Option<TransactionId>>,
    buffer_id: BufferId,
    id: TransactionId,
)
    requires
        closed.len() >= states.len(),
    ensures
        closed_entries(states, closed).contains((buffer_id, id)) <==> exists|s: int|
            0 <= s < states.len() && (#[trigger] states[s]).buffer.remote_id == buffer_id
                && closed[s] == Some(id),
    decreases states.len(),
{
    if states.len() > 0 {
        let front = states.drop_last();
        let before = closed_entries(front, closed);
        let after = closed_entries(states, closed);
        let n = front.len() as int;
        lemma_closed_before(front, closed, buffer_id, id);
        if before.contains((buffer_id, id)) {
            let k = choose|k: int| 0 <= k < before.len() && before[k] == (buffer_id, id);
            assert(after[k] == (buffer_id, id));
            let s = choose|s: int|
                0 <= s < front.len() && (#[trigger] front[s]).buffer.remote_id == buffer_id
                    && closed[s] == Some(id);
            assert(states[s].buffer.remote_id == buffer_id);
        }
        if after.contains((buffer_id, id)) {
            let k = choose|k: int| 0 <= k < after.len() && after[k] == (buffer_id, id);
            if k < before.len() {
                assert(before[k] == (buffer_id, id));
            } else {
                assert(states[n].buffer.remote_id == buffer_id);
            }
        }
        if exists|s: int|
            0 <= s < states.len() && (#[trigger] states[s]).buffer.remote_id == buffer_id
                && closed[s] == Some(id) {
            let s = choose|s: int|
                0 <= s < states.len() && (#[trigger] states[s]).buffer.remote_id == buffer_id
                    && closed[s] == Some(id);
            if s < n {
                assert(front[s].buffer.remote_id == buffer_id);
                assert(before.contains((buffer_id, id)));
            } else {
                assert(after[before.len() as int] == (buffer_id, id));
            }
        }
    } else {
        assert(closed_entries(states, closed) =~= Seq::<(BufferId, TransactionId)>::empty());
    }
}

/// A transaction that started longer than the interval after the one before ended, or
/// behind one that is to stay apart, stays a transaction of its own when it ends: it
/// stays on top, with what the buffers closed in it, and all below stay as they were.
/// One that started sooner is undone with the one before, whose identifier both have.
#[verifier::rlimit(50)]
pub proof fn lemma_ended_transaction(
    undo: Seq<TransactionModel>,
    now: u64,
    entries: Seq<(BufferId, TransactionId)>,
    interval: u64,
    buffer_id: BufferId,
)
    requires
        undo.len() > 0,
    ensures
        ({
            let r = ended(undo, now, entries, interval);
            let n = undo.len() as int;
            let own = undo.last().buffer_transactions;
            let apart = n == 1 || undo[n - 2].suppress_grouping || undo[n - 1].first_edit_at
                - undo[n - 2].last_edit_at > interval;
            &&& 1 <= r.len() <= n
            &&& r.last().last_edit_at == now
            &&& apart ==> {
                &&& r.len() == n
                &&& r.take(n - 1) == undo.take(n - 1)
                &&& r[n - 1].id == undo[n - 1].id
                &&& r[n - 1].first_edit_at == undo[n - 1].first_edit_at
                &&& r[n - 1].suppress_grouping == undo[n - 1].suppress_grouping
                &&& entry_from(r[n - 1].buffer_transactions, buffer_id, 0) == if has_entry(
                    own,
                    buffer_id,
                ) {
                    entry_from(own, buffer_id, 0)
                } else {
                    entry_from(entries, buffer_id, 0)
                }
            }
            &&& !apart ==> {
                &&& r.len() < n
                &&& r.last().id == undo[r.len() - 1].id
                &&& r.last().first_edit_at == undo[r.len() - 1].first_edit_at
                &&& r.take(r.len() - 1) == undo.take(r.len() - 1)
                &&& has_entry(undo[r.len() - 1].buffer_transactions, buffer_id) ==> entry_from(
                    r.last().buffer_transactions,
                    buffer_id,
                    0,
                ) == entry_from(undo[r.len() - 1].buffer_transactions, buffer_id, 0)
                &&& has_entry(entries, buffer_id) ==> has_entry(
                    r.last().buffer_transactions,
                    buffer_id,
                )
            }
        }),
{
    let n = undo.len() as int;
    let own = undo.last().buffer_transactions;
    let closed = undo.update(
        n - 1,
        TransactionModel {
            last_edit_at: now,
            buffer_transactions: or_insert_all(own, entries),
            ..undo.last()
        },
    );
    let r = ended(undo, now, entries, interval);
    assert(r == grouped(closed, group_count(closed, interval)));
    lemma_grouping(closed, interval);
    lemma_added_entries(own, entries, buffer_id);
    let merged = closed.len() - r.len();
    if n >= 2 {
        assert(closed[n - 2] == undo[n - 2]);
        assert(follows_closely(closed, n - 1, interval) == (!undo[n - 2].suppress_grouping
            && undo[n - 1].first_edit_at - undo[n - 2].last_edit_at <= interval));
    }
    if r.len() == n {
        assert(r.take(n - 1) =~= undo.take(n - 1));
    } else {
        let at = r.len() - 1;
        assert forall|i: int| 0 <= i < at implies #[trigger] r[i] == undo[i] by {
            assert(r[i] == closed[i]);
        }
        assert(r.take(at) =~= undo.take(at));
        lemma_group_count(closed, interval);
        lemma_merged_transactions(closed, group_count(closed, interval), buffer_id);
        assert(group_count(closed, interval) == merged);
        let all = closed.skip(at);
        assert(all[0] == undo[at]);
        if has_entry(undo[at].buffer_transactions, buffer_id) {
            assert(first_to_hold(all, 0, buffer_id));
        }
        if has_entry(entries, buffer_id) {
            assert(all[all.len() - 1] == closed[n - 1]);
            if !(exists|i: int| first_to_hold(all, i, buffer_id)) {
                lemma_none_holds(all, all.len() - 1, buffer_id);
                assert(has_entry(all[all.len() - 1].buffer_transactions, buffer_id));
            }
        }
    }
}

/// Nothing later is undone together with a transaction that was to stay apart: whatever
/// ends behind it, however soon, leaves it as it was.
pub proof fn lemma_finalized_stays_apart(
    undo: Seq<TransactionModel>,
    next: TransactionModel,
    now: u64,
    entries: Seq<(BufferId, TransactionId)>,
    interval: u64,
)
    requires
        undo.len() > 0,
    ensures
        ({
            let kept = finalized(undo);
            let n = undo.len() as int;
            let r = ended(kept.push(next), now, entries, interval);
            &&& kept.len() == n
            &&& kept.take(n - 1) == undo.take(n - 1)
            &&& kept[n - 1] == (TransactionModel { suppress_grouping: true, ..undo[n - 1] })
            &&& r.len() == n + 1
            &&& r.take(n) == kept
            &&& r[n].id == next.id
        }),
{
    let kept = finalized(undo);
    let n = undo.len() as int;
    assert(kept.take(n - 1) =~= undo.take(n - 1));
    lemma_ended_transaction(kept.push(next), now, entries, interval, BufferId(0));
    assert(kept.push(next).take(n) =~= kept);
}

/// Forgetting a transaction takes the last with its identifier out, of those to undo or
/// else of those to redo, and leaves all others in their order.
pub proof fn lemma_forgets_one(
    undo: Seq<TransactionModel>,
    redo: Seq<TransactionModel>,
    id: TransactionId,
)
    ensures
        ({
            let (left_undo, left_redo) = forgotten(undo, redo, id);
            let in_undo = exists|i: int| 0 <= i < undo.len() && (#[trigger] undo[i]).id == id;
            let in_redo = exists|i: int| 0 <= i < redo.len() && (#[trigger] redo[i]).id == id;
            &&& in_undo ==> left_redo == redo && exists|i: int|
                #![trigger undo[i]]
                0 <= i < undo.len() && undo[i].id == id && left_undo == undo.take(i) + undo.skip(
                    i + 1,
                ) && find_last(undo, redo, id) == Some(undo[i]) && forall|j: int|
                    i < j < undo.len() ==> (#[trigger] undo[j]).id != id
            &&& !in_undo && in_redo ==> left_undo == undo && exists|i: int|
                #![trigger redo[i]]
                0 <= i < redo.len() && redo[i].id == id && left_redo == redo.take(i) + redo.skip(
                    i + 1,
                ) && find_last(undo, redo, id) == Some(redo[i]) && forall|j: int|
                    i < j < redo.len() ==> (#[trigger] redo[j]).id != id
            &&& !in_undo && !in_redo ==> left_undo == undo && left_redo == redo && find_last(
                undo,
                redo,
                id,
            ) is None
        }),
{
    let (left_undo, left_redo) = forgotten(undo, redo, id);
    lemma_found_last(undo, id);
    lemma_found_last(redo, id);
    let u = last_with_id(undo, id);
    let d = last_with_id(redo, id);
    if u >= 0 {
        assert(undo[u].id == id);
        assert(left_undo =~= undo.take(u) + undo.skip(u + 1));
    } else if d >= 0 {
        assert(redo[d].id == id);
        assert(left_redo =~= redo.take(d) + redo.skip(d + 1));
    }
}

/// A buffer is asked to merge one of its transactions into another just where it is
/// known, the merged transaction holds the one, and the other is what is found for it in
/// the transaction that it is merged into.
pub proof fn lemma_merges(
    states: Seq<BufferState>,
    entries: Seq<(BufferId, TransactionId)>,
    into: Seq<(BufferId, TransactionId)>,
    buffer_id: BufferId,
    id: TransactionId,
    destination: TransactionId,
)
    ensures
        merges(states, entries, into).contains((buffer_id, id, destination)) <==> entries.contains(
            (buffer_id, id),
        ) && is_known(states, buffer_id) && entry_from(into, buffer_id, 0) == Some(destination),
    decreases entries.len(),
{
    let r = merges(states, entries, into);
    let asked = (buffer_id, id, destination);
    if entries.len() > 0 {
        let front = entries.drop_last();
        let before = merges(states, front, into);
        lemma_merges(states, front, into, buffer_id, id, destination);
        if before.contains(asked) {
            let k = choose|k: int| 0 <= k < before.len() && before[k] == asked;
            assert(r[k] == asked);
            let m = choose|m: int| 0 <= m < front.len() && front[m] == (buffer_id, id);
            assert(entries[m] == (buffer_id, id));
        }
        if r.contains(asked) {
            let k = choose|k: int| 0 <= k < r.len() && r[k] == asked;
            if k < before.len() {
                assert(before[k] == asked);
            } else {
                assert(entries[entries.len() - 1] == (buffer_id, id));
            }
        }
        if entries.contains((buffer_id, id)) && is_known(states, buffer_id) && entry_from(
            into,
            buffer_id,
            0,
        ) == Some(destination) {
            let m = choose|m: int| 0 <= m < entries.len() && entries[m] == (buffer_id, id);
            if m < front.len() {
                assert(front[m] == (buffer_id, id));
            } else {
                assert(r[before.len() as int] == asked);
            }
        }
    }
}

/// The replies change just the entries of the transaction that was moved: it, and all
/// others, stay where they are.
pub proof fn lemma_with_answers(
    states: Seq<BufferState>,
    stack: Seq<TransactionModel>,
    replies: Seq<BufferReply>,
)
    requires
        stack.len() > 0,
    ensures
        ({
            let r = with_answers(states, stack, replies);
            let n = stack.len() as int;
            &&& r.len() == n
            &&& r.take(n - 1) == stack.take(n - 1)
            &&& r[n - 1].id == stack[n - 1].id
            &&& r[n - 1].first_edit_at == stack[n - 1].first_edit_at
            &&& r[n - 1].last_edit_at == stack[n - 1].last_edit_at
            &&& r[n - 1].suppress_grouping == stack[n - 1].suppress_grouping
            &&& r[n - 1].buffer_transactions == answered(
                states,
                stack[n - 1].buffer_transactions,
                replies,
            )
        }),
{
    let r = with_answers(states, stack, replies);
    let n = stack.len() as int;
    assert(r.take(n - 1) =~= stack.take(n - 1));
}

/// An undo, and a redo, goes on to the next transaction just where no buffer changed
/// anything.
pub proof fn lemma_some_changed(replies: Seq<BufferReply>, k: int)
    requires
        0 <= k < replies.len(),
    ensures
        replies[k].changed ==> some_changed(replies),
        (forall|j: int| 0 <= j < replies.len() ==> !(#[trigger] replies[j]).changed)
            ==> !some_changed(replies),
{
}

/// A transaction that is opened, and ends having made nothing, leaves no trace.
pub proof fn lemma_opened_in_vain(undo: Seq<TransactionModel>, id: TransactionId, now: u64)
    ensures
        without_last(with_started(undo, id, now)) == undo,
{
    assert(without_last(with_started(undo, id, now)) =~= undo);
}

/// A transaction that is opened longer than the interval after the latest ended, or behind
/// one that is to stay apart, and ends having made entries, is on top of those before, which
/// stay as they were: under its own identifier, from when it was opened to when it ended,
/// and with what the buffers closed in it. One that is opened sooner is merged into one of
/// those before, which then ends when it ends.
pub proof fn lemma_opened_and_ended(
    undo: Seq<TransactionModel>,
    id: TransactionId,
    opened_at: u64,
    ended_at: u64,
    entries: Seq<(BufferId, TransactionId)>,
    interval: u64,
    buffer_id: BufferId,
)
    ensures
        ({
            let r = ended(with_started(undo, id, opened_at), ended_at, entries, interval);
            let n = undo.len() as int;
            let apart = n == 0 || undo[n - 1].suppress_grouping || opened_at - undo[n
                - 1].last_edit_at > interval;
            &&& r.len() > 0
            &&& r.last().last_edit_at == ended_at
            &&& apart ==> {
                &&& r.len() == n + 1
                &&& r.take(n) == undo
                &&& r[n].id == id
                &&& r[n].first_edit_at == opened_at
                &&& !r[n].suppress_grouping
                &&& entry_from(r[n].buffer_transactions, buffer_id, 0) == entry_from(
                    entries,
                    buffer_id,
                    0,
                )
            }
            &&& !apart ==> {
                &&& r.len() <= n
                &&& r.last().id == undo[r.len() - 1].id
                &&& r.last().first_edit_at == undo[r.len() - 1].first_edit_at
                &&& r.take(r.len() - 1) == undo.take(r.len() - 1)
            }
        }),
{
    let started = with_started(undo, id, opened_at);
    let n = undo.len() as int;
    lemma_ended_transaction(started, ended_at, entries, interval, buffer_id);
    let r = ended(started, ended_at, entries, interval);
    assert(started.take(n) =~= undo);
    if n > 0 {
        assert(started[n - 1] == undo[n - 1]);
    }
    if r.len() <= n {
        assert(started.take(r.len() - 1) =~= undo.take(r.len() - 1));
    }
}

/// A transaction that ends and made nothing is forgotten, and no other.
pub proof fn lemma_nothing_made(undo: Seq<TransactionModel>)
    ensures
        undo.len() > 0 ==> without_last(undo) == undo.take(undo.len() - 1),
        undo.len() == 0 ==> without_last(undo) == undo,
{
    if undo.len() > 0 {
        assert(without_last(undo) =~= undo.take(undo.len() - 1));
    }
}

} // verus!
