//! Which transactions can be undone and redone.

use vstd::prelude::*;

use crate::buffer::BufferId;
use crate::clock::Lamport;

pub mod laws;

verus! {

/// Names a transaction, of a buffer or of a multibuffer.
pub type TransactionId = Lamport;

/// Transactions that come closer after one another than this, in nanoseconds,
/// are undone together.
pub const GROUP_INTERVAL: u64 = 300_000_000;

/// A transaction of a multibuffer.
#[derive(Debug)]
pub struct Transaction {
    pub id: TransactionId,
    /// The transactions of buffers that it is made of, at most one a buffer.
    pub buffer_transactions: Vec<(BufferId, TransactionId)>,
    /// When it started and ended, in nanoseconds.
    pub first_edit_at: u64,
    pub last_edit_at: u64,
    /// Whether later transactions stay apart from it.
    pub suppress_grouping: bool,
}

/// The transactions that can be undone and redone.
#[derive(Debug)]
pub struct History {
    pub next_transaction_id: TransactionId,
    pub undo_stack: Vec<Transaction>,
    pub redo_stack: Vec<Transaction>,
    /// How many transactions are open, one inside the other.
    pub transaction_depth: usize,
    pub group_interval: u64,
}

/// The mathematical value of a [`Transaction`].
#[verifier::ext_equal]
pub struct TransactionModel {
    pub id: TransactionId,
    pub buffer_transactions: Seq<(BufferId, TransactionId)>,
    pub first_edit_at: u64,
    pub last_edit_at: u64,
    pub suppress_grouping: bool,
}

impl View for Transaction {
    type V = TransactionModel;

    open spec fn view(&self) -> TransactionModel {
        TransactionModel {
            id: self.id,
            buffer_transactions: self.buffer_transactions@,
            first_edit_at: self.first_edit_at,
            last_edit_at: self.last_edit_at,
            suppress_grouping: self.suppress_grouping,
        }
    }
}

impl TransactionModel {
    /// The transaction with the entries of buffers that had none.
    pub open spec fn with_entries(self, entries: Seq<(BufferId, TransactionId)>) -> Self {
        TransactionModel {
            buffer_transactions: or_insert_all(self.buffer_transactions, entries),
            ..self
        }
    }
}

pub open spec fn models(ts: Seq<Transaction>) -> Seq<TransactionModel> {
    ts.map_values(|t: Transaction| t@)
}

/// Whether the entries hold one for a buffer.
pub open spec fn has_entry(entries: Seq<(BufferId, TransactionId)>, buffer_id: BufferId) -> bool {
    exists|k: int| 0 <= k < entries.len() && (#[trigger] entries[k]).0 == buffer_id
}

/// The transaction of a buffer, among the entries from `from` on.
pub open spec fn entry_from(
    entries: Seq<(BufferId, TransactionId)>,
    buffer_id: BufferId,
    from: int,
) -> Option<TransactionId>
    decreases entries.len() - from,
{
    if from >= entries.len() {
        None
    } else if entries[from].0 == buffer_id {
        Some(entries[from].1)
    } else {
        entry_from(entries, buffer_id, from + 1)
    }
}

/// The entries with one more, where its buffer has none yet.
pub open spec fn or_insert(
    entries: Seq<(BufferId, TransactionId)>,
    entry: (BufferId, TransactionId),
) -> Seq<(BufferId, TransactionId)> {
    if has_entry(entries, entry.0) {
        entries
    } else {
        entries.push(entry)
    }
}

/// The entries with the entry of a buffer set.
pub open spec fn inserted(
    entries: Seq<(BufferId, TransactionId)>,
    entry: (BufferId, TransactionId),
) -> Seq<(BufferId, TransactionId)> {
    if has_entry(entries, entry.0) {
        entries.map_values(
            |e: (BufferId, TransactionId)|
                if e.0 == entry.0 {
                    entry
                } else {
                    e
                },
        )
    } else {
        entries.push(entry)
    }
}

/// The entries with several set, one after the other.
pub open spec fn inserted_all(
    entries: Seq<(BufferId, TransactionId)>,
    more: Seq<(BufferId, TransactionId)>,
) -> Seq<(BufferId, TransactionId)>
    decreases more.len(),
{
    if more.len() == 0 {
        entries
    } else {
        inserted(inserted_all(entries, more.drop_last()), more.last())
    }
}

/// The entries with more of them, one after the other.
pub open spec fn or_insert_all(
    entries: Seq<(BufferId, TransactionId)>,
    more: Seq<(BufferId, TransactionId)>,
) -> Seq<(BufferId, TransactionId)>
    decreases more.len(),
{
    if more.len() == 0 {
        entries
    } else {
        or_insert(or_insert_all(entries, more.drop_last()), more.last())
    }
}

/// The entries with those of several transactions.
pub open spec fn or_insert_transactions(
    entries: Seq<(BufferId, TransactionId)>,
    ts: Seq<TransactionModel>,
) -> Seq<(BufferId, TransactionId)>
    decreases ts.len(),
{
    if ts.len() == 0 {
        entries
    } else {
        or_insert_all(
            or_insert_transactions(entries, ts.drop_last()),
            ts.last().buffer_transactions,
        )
    }
}

/// Whether the entries hold at most one for a buffer.
pub open spec fn one_per_buffer(entries: Seq<(BufferId, TransactionId)>) -> bool {
    forall|a: int, b: int|
        0 <= a < b < entries.len() ==> (#[trigger] entries[a]).0 != (#[trigger] entries[b]).0
}

pub proof fn lemma_or_insert_one_per_buffer(
    entries: Seq<(BufferId, TransactionId)>,
    entry: (BufferId, TransactionId),
)
    requires
        one_per_buffer(entries),
    ensures
        one_per_buffer(or_insert(entries, entry)),
{
}

/// The last of the transactions with an identifier, or -1.
pub open spec fn last_with_id(ts: Seq<TransactionModel>, id: TransactionId) -> int
    decreases ts.len(),
{
    if ts.len() == 0 {
        -1
    } else if ts.last().id == id {
        ts.len() - 1
    } else {
        last_with_id(ts.drop_last(), id)
    }
}

/// The first of the transactions from `from` on with an identifier, or the
/// number of transactions.
pub open spec fn first_with_id(ts: Seq<TransactionModel>, id: TransactionId, from: int) -> int
    decreases ts.len() - from,
{
    if from >= ts.len() {
        ts.len() as int
    } else if ts[from].id == id {
        from
    } else {
        first_with_id(ts, id, from + 1)
    }
}

/// The transactions with the last `n` merged into the one before them.
pub open spec fn grouped(ts: Seq<TransactionModel>, n: int) -> Seq<TransactionModel> {
    let kept = ts.len() - n;
    if n == 0 || kept <= 0 {
        ts.take(kept)
    } else {
        ts.take(kept).update(
            kept - 1,
            TransactionModel {
                last_edit_at: ts.last().last_edit_at,
                buffer_transactions: or_insert_transactions(
                    ts[kept - 1].buffer_transactions,
                    ts.skip(kept),
                ),
                ..ts[kept - 1]
            },
        )
    }
}

/// How many of the last transactions come so soon after the one before that
/// they are undone with it.
pub open spec fn group_count(ts: Seq<TransactionModel>, interval: u64) -> int
    decreases ts.len(),
{
    if ts.len() < 2 {
        0
    } else {
        let last = ts[ts.len() - 1];
        let previous = ts[ts.len() - 2];
        if !previous.suppress_grouping && last.first_edit_at - previous.last_edit_at <= interval {
            1 + group_count(ts.drop_last(), interval)
        } else {
            0
        }
    }
}

/// How many of the last transactions are younger than the one with the
/// identifier, where none of them keeps later ones apart; else `None`.
pub open spec fn count_until(ts: Seq<TransactionModel>, id: TransactionId) -> Option<int>
    decreases ts.len(),
{
    if ts.len() == 0 {
        None
    } else if ts.last().id == id {
        Some(0)
    } else if ts.last().suppress_grouping {
        None
    } else {
        match count_until(ts.drop_last(), id) {
            Some(n) => Some(n + 1),
            None => None,
        }
    }
}

pub proof fn lemma_group_count(ts: Seq<TransactionModel>, interval: u64)
    ensures
        0 <= group_count(ts, interval),
        ts.len() > 0 ==> group_count(ts, interval) < ts.len(),
        ts.len() == 0 ==> group_count(ts, interval) == 0,
    decreases ts.len(),
{
    if ts.len() >= 2 {
        lemma_group_count(ts.drop_last(), interval);
    }
}

pub proof fn lemma_count_until(ts: Seq<TransactionModel>, id: TransactionId)
    ensures
        match count_until(ts, id) {
            Some(n) => 0 <= n < ts.len() && ts[ts.len() - 1 - n].id == id,
            None => true,
        },
    decreases ts.len(),
{
    if ts.len() > 0 {
        lemma_count_until(ts.drop_last(), id);
    }
}

impl Transaction {
    /// Adds the entry of a buffer, where the buffer has none yet.
    pub fn or_insert(&mut self, entry: (BufferId, TransactionId))
        ensures
            final(self)@ == (TransactionModel {
                buffer_transactions: or_insert(old(self).buffer_transactions@, entry),
                ..old(self)@
            }),
    {
        let mut k: usize = 0;
        while k < self.buffer_transactions.len()
            invariant
                *self == *old(self),
                k <= self.buffer_transactions@.len(),
                forall|j: int|
                    0 <= j < k ==> (#[trigger] self.buffer_transactions@[j]).0 != entry.0,
            decreases self.buffer_transactions@.len() - k,
        {
            if self.buffer_transactions[k].0 == entry.0 {
                return ;
            }
            k = k + 1;
        }
        self.buffer_transactions.push(entry);
    }

    /// Adds the entries of buffers that have none yet.
    pub fn or_insert_all(&mut self, entries: &Vec<(BufferId, TransactionId)>)
        ensures
            final(self)@ == (TransactionModel {
                buffer_transactions: or_insert_all(
                    old(self).buffer_transactions@,
                    entries@,
                ),
                ..old(self)@
            }),
    {
        let mut k: usize = 0;
        assert(entries@.take(0) =~= Seq::<(BufferId, TransactionId)>::empty());
        while k < entries.len()
            invariant
                k <= entries@.len(),
                self@ == (TransactionModel {
                    buffer_transactions: or_insert_all(
                        old(self).buffer_transactions@,
                        entries@.take(k as int),
                    ),
                    ..old(self)@
                }),
            decreases entries@.len() - k,
        {
            proof {
                assert(entries@.take(k + 1).drop_last() =~= entries@.take(k as int));
            }
            self.or_insert(entries[k]);
            k = k + 1;
        }
        assert(entries@.take(entries@.len() as int) =~= entries@);
    }

    /// Sets the entry of a buffer.
    pub fn insert(&mut self, entry: (BufferId, TransactionId))
        ensures
            final(self)@ == (TransactionModel {
                buffer_transactions: inserted(old(self).buffer_transactions@, entry),
                ..old(self)@
            }),
    {
        let ghost all = self.buffer_transactions@;
        let mut found: bool = false;
        let mut k: usize = 0;
        while k < self.buffer_transactions.len()
            invariant
                k <= self.buffer_transactions@.len(),
                self.buffer_transactions@.len() == all.len(),
                all == old(self).buffer_transactions@,
                self@ == (TransactionModel {
                    buffer_transactions: self.buffer_transactions@,
                    ..old(self)@
                }),
                forall|j: int|
                    0 <= j < k ==> #[trigger] self.buffer_transactions@[j] == if all[j].0
                        == entry.0 {
                        entry
                    } else {
                        all[j]
                    },
                forall|j: int|
                    k <= j < all.len() ==> #[trigger] self.buffer_transactions@[j] == all[j],
                found == exists|j: int| 0 <= j < k && (#[trigger] all[j]).0 == entry.0,
            decreases all.len() - k,
        {
            if self.buffer_transactions[k].0 == entry.0 {
                assert(all[k as int].0 == entry.0);
                self.buffer_transactions.set(k, entry);
                found = true;
            }
            k = k + 1;
        }
        if !found {
            self.buffer_transactions.push(entry);
            assert(self.buffer_transactions@ =~= inserted(all, entry));
        } else {
            assert(has_entry(all, entry.0));
            assert(self.buffer_transactions@ =~= inserted(all, entry));
        }
    }

    /// The transaction of a buffer.
    pub fn get(&self, buffer_id: BufferId) -> (r: Option<TransactionId>)
        ensures
            r == entry_from(self.buffer_transactions@, buffer_id, 0),
    {
        let mut k: usize = 0;
        while k < self.buffer_transactions.len()
            invariant
                k <= self.buffer_transactions@.len(),
                entry_from(self.buffer_transactions@, buffer_id, 0) == entry_from(
                    self.buffer_transactions@,
                    buffer_id,
                    k as int,
                ),
            decreases self.buffer_transactions@.len() - k,
        {
            if self.buffer_transactions[k].0 == buffer_id {
                return Some(self.buffer_transactions[k].1);
            }
            k = k + 1;
        }
        None
    }
}

impl Default for History {
    fn default() -> (r: Self)
        ensures
            r.next_transaction_id.replica_id == 0,
            r.next_transaction_id.value == 0,
            r.undo().len() == 0,
            r.redo().len() == 0,
            r.transaction_depth == 0,
            r.group_interval == GROUP_INTERVAL,
    {
        History {
            next_transaction_id: Lamport { replica_id: 0, value: 0 },
            undo_stack: Vec::new(),
            redo_stack: Vec::new(),
            transaction_depth: 0,
            group_interval: GROUP_INTERVAL,
        }
    }
}

/// The transactions with one more, which has just been opened.
pub open spec fn with_started(
    undo: Seq<TransactionModel>,
    id: TransactionId,
    now: u64,
) -> Seq<TransactionModel> {
    undo.push(
        TransactionModel {
            id,
            buffer_transactions: seq![],
            first_edit_at: now,
            last_edit_at: now,
            suppress_grouping: false,
        },
    )
}

/// The transactions without the last, where there is one.
pub open spec fn without_last(transactions: Seq<TransactionModel>) -> Seq<TransactionModel> {
    if transactions.len() == 0 {
        transactions
    } else {
        transactions.drop_last()
    }
}

impl History {
    /// The transactions that can be undone, the latest last.
    pub open spec fn undo(&self) -> Seq<TransactionModel> {
        models(self.undo_stack@)
    }

    /// The transactions that can be redone, the next last.
    pub open spec fn redo(&self) -> Seq<TransactionModel> {
        models(self.redo_stack@)
    }

    /// Whether only the stacks differ.
    pub open spec fn same_but_stacks(&self, other: &History) -> bool {
        &&& self.next_transaction_id == other.next_transaction_id
        &&& self.transaction_depth == other.transaction_depth
        &&& self.group_interval == other.group_interval
    }

    /// Opens a transaction. The outermost one gets an identifier.
    pub fn start_transaction(&mut self, now: u64) -> (r: Option<TransactionId>)
        requires
            old(self).transaction_depth < usize::MAX,
            old(self).next_transaction_id.value < u32::MAX,
        ensures
            final(self).transaction_depth == old(self).transaction_depth + 1,
            final(self).group_interval == old(self).group_interval,
            final(self).redo() == old(self).redo(),
            old(self).transaction_depth == 0 ==> {
                let id = old(self).next_transaction_id;
                &&& r == Some(id)
                &&& final(self).next_transaction_id == (Lamport {
                    value: (id.value + 1) as u32,
                    ..id
                })
                &&& final(self).undo() == with_started(old(self).undo(), id, now)
            },
            old(self).transaction_depth > 0 ==> {
                &&& r is None
                &&& final(self).next_transaction_id == old(self).next_transaction_id
                &&& final(self).undo() == old(self).undo()
            },
    {
        self.transaction_depth = self.transaction_depth + 1;
        if self.transaction_depth == 1 {
            let id = self.next_transaction_id.tick();
            self.undo_stack.push(
                Transaction {
                    id,
                    buffer_transactions: Vec::new(),
                    first_edit_at: now,
                    last_edit_at: now,
                    suppress_grouping: false,
                },
            );
            assert(self.undo() =~= with_started(old(self).undo(), id, now));
            Some(id)
        } else {
            None
        }
    }

    /// Closes a transaction that made `buffer_transactions`. Returns whether it
    /// was the outermost one and made any.
    pub fn end_transaction(
        &mut self,
        now: u64,
        buffer_transactions: &Vec<(BufferId, TransactionId)>,
    ) -> (r: bool)
        requires
            old(self).transaction_depth > 0,
            old(self).transaction_depth == 1 && buffer_transactions@.len() > 0 ==> old(
                self,
            ).undo_stack@.len() > 0,
        ensures
            final(self).transaction_depth == old(self).transaction_depth - 1,
            final(self).next_transaction_id == old(self).next_transaction_id,
            final(self).group_interval == old(self).group_interval,
            r == (old(self).transaction_depth == 1 && buffer_transactions@.len() > 0),
            old(self).transaction_depth > 1 ==> {
                &&& final(self).undo() == old(self).undo()
                &&& final(self).redo() == old(self).redo()
            },
            old(self).transaction_depth == 1 && buffer_transactions@.len() == 0 ==> {
                &&& final(self).undo() == without_last(old(self).undo())
                &&& final(self).redo() == old(self).redo()
            },
            r ==> {
                let n = old(self).undo().len();
                &&& final(self).undo() == old(self).undo().update(
                    n - 1,
                    TransactionModel {
                        last_edit_at: now,
                        buffer_transactions: or_insert_all(
                            old(self).undo()[n - 1].buffer_transactions,
                            buffer_transactions@,
                        ),
                        ..old(self).undo()[n - 1]
                    },
                )
                &&& final(self).redo().len() == 0
            },
    {
        self.transaction_depth = self.transaction_depth - 1;
        if self.transaction_depth == 0 {
            if buffer_transactions.len() == 0 {
                let _ = self.undo_stack.pop();
                assert(self.undo() =~= without_last(old(self).undo()));
                false
            } else {
                self.redo_stack.clear();
                let last: usize = self.undo_stack.len() - 1;
                self.undo_stack[last].last_edit_at = now;
                self.undo_stack[last].or_insert_all(buffer_transactions);
                assert(self.undo() =~= old(self).undo().update(
                    last as int,
                    self.undo_stack@[last as int]@,
                ));
                true
            }
        } else {
            false
        }
    }

    /// Records a transaction that made `buffer_transactions`, where it made any.
    pub fn push_transaction(
        &mut self,
        buffer_transactions: Vec<(BufferId, TransactionId)>,
        now: u64,
    )
        requires
            old(self).transaction_depth == 0,
            old(self).next_transaction_id.value < u32::MAX,
        ensures
            final(self).transaction_depth == old(self).transaction_depth,
            final(self).group_interval == old(self).group_interval,
            final(self).next_transaction_id == (Lamport {
                value: (old(self).next_transaction_id.value + 1) as u32,
                ..old(self).next_transaction_id
            }),
            buffer_transactions@.len() == 0 ==> {
                &&& final(self).undo() == old(self).undo()
                &&& final(self).redo() == old(self).redo()
            },
            buffer_transactions@.len() > 0 ==> {
                &&& final(self).undo() == old(self).undo().push(
                    TransactionModel {
                        id: old(self).next_transaction_id,
                        buffer_transactions: inserted_all(seq![], buffer_transactions@),
                        first_edit_at: now,
                        last_edit_at: now,
                        suppress_grouping: false,
                    },
                )
                &&& final(self).redo().len() == 0
            },
    {
        let mut transaction = Transaction {
            id: self.next_transaction_id.tick(),
            buffer_transactions: Vec::new(),
            first_edit_at: now,
            last_edit_at: now,
            suppress_grouping: false,
        };
        let mut k: usize = 0;
        let ghost entries = buffer_transactions@;
        let ghost empty = transaction@;
        assert(entries.take(0) =~= Seq::<(BufferId, TransactionId)>::empty());
        assert(transaction.buffer_transactions@ =~= Seq::<(BufferId, TransactionId)>::empty());
        while k < buffer_transactions.len()
            invariant
                k <= entries.len(),
                entries == buffer_transactions@,
                transaction@ == (TransactionModel {
                    buffer_transactions: inserted_all(seq![], entries.take(k as int)),
                    ..empty
                }),
            decreases entries.len() - k,
        {
            proof {
                assert(entries.take(k + 1).drop_last() =~= entries.take(k as int));
            }
            transaction.insert(buffer_transactions[k]);
            k = k + 1;
        }
        assert(entries.take(entries.len() as int) =~= entries);
        if buffer_transactions.len() > 0 {
            self.undo_stack.push(transaction);
            assert(self.undo() =~= old(self).undo().push(transaction@));
            self.redo_stack.clear();
        }
    }

    /// Keeps later transactions apart from the latest one.
    pub fn finalize_last_transaction(&mut self)
        ensures
            final(self).same_but_stacks(old(self)),
            final(self).redo() == old(self).redo(),
            old(self).undo().len() == 0 ==> final(self).undo() == old(self).undo(),
            old(self).undo().len() > 0 ==> final(self).undo() == old(self).undo().update(
                old(self).undo().len() - 1,
                TransactionModel { suppress_grouping: true, ..old(self).undo().last() },
            ),
    {
        if self.undo_stack.len() > 0 {
            let last: usize = self.undo_stack.len() - 1;
            self.undo_stack[last].suppress_grouping = true;
            assert(self.undo() =~= old(self).undo().update(
                last as int,
                self.undo_stack@[last as int]@,
            ));
        }
    }

    /// The index of the last of the transactions with an identifier.
    fn last_position(transactions: &Vec<Transaction>, id: TransactionId) -> (r: Option<usize>)
        ensures
            match r {
                Some(k) => k == last_with_id(models(transactions@), id) && k < transactions@.len(),
                None => last_with_id(models(transactions@), id) == -1,
            },
    {
        let ghost all = models(transactions@);
        let mut k: usize = transactions.len();
        assert(all.take(all.len() as int) =~= all);
        while k > 0
            invariant
                k <= transactions@.len(),
                all == models(transactions@),
                last_with_id(all, id) == last_with_id(all.take(k as int), id),
            decreases k,
        {
            proof {
                assert(all.take(k as int).drop_last() =~= all.take(k - 1));
                assert(all.take(k as int).last() == transactions@[k - 1]@);
            }
            if transactions[k - 1].id == id {
                return Some(k - 1);
            }
            k = k - 1;
        }
        None
    }

    /// Takes a transaction out of the history.
    pub fn forget(&mut self, transaction_id: TransactionId) -> (r: Option<Transaction>)
        ensures
            final(self).same_but_stacks(old(self)),
            ({
                let u = last_with_id(old(self).undo(), transaction_id);
                let d = last_with_id(old(self).redo(), transaction_id);
                if u >= 0 {
                    &&& r matches Some(t) && t@ == old(self).undo()[u]
                    &&& final(self).undo() == old(self).undo().remove(u)
                    &&& final(self).redo() == old(self).redo()
                } else if d >= 0 {
                    &&& r matches Some(t) && t@ == old(self).redo()[d]
                    &&& final(self).undo() == old(self).undo()
                    &&& final(self).redo() == old(self).redo().remove(d)
                } else {
                    &&& r is None
                    &&& final(self).undo() == old(self).undo()
                    &&& final(self).redo() == old(self).redo()
                }
            }),
    {
        if let Some(ix) = Self::last_position(&self.undo_stack, transaction_id) {
            let transaction = self.undo_stack.remove(ix);
            assert(self.undo() =~= old(self).undo().remove(ix as int));
            Some(transaction)
        } else if let Some(ix) = Self::last_position(&self.redo_stack, transaction_id) {
            let transaction = self.redo_stack.remove(ix);
            assert(self.redo() =~= old(self).redo().remove(ix as int));
            Some(transaction)
        } else {
            None
        }
    }

    /// The index of the first of the transactions with an identifier.
    fn first_position(transactions: &Vec<Transaction>, id: TransactionId) -> (r: Option<usize>)
        ensures
            match r {
                Some(k) => k == first_with_id(models(transactions@), id, 0) && k
                    < transactions@.len(),
                None => first_with_id(models(transactions@), id, 0) == transactions@.len(),
            },
    {
        let ghost all = models(transactions@);
        let mut k: usize = 0;
        while k < transactions.len()
            invariant
                k <= transactions@.len(),
                all == models(transactions@),
                first_with_id(all, id, 0) == first_with_id(all, id, k as int),
            decreases transactions@.len() - k,
        {
            if transactions[k].id == id {
                return Some(k);
            }
            k = k + 1;
        }
        None
    }

    /// A transaction that can be undone or redone.
    pub fn transaction(&self, transaction_id: TransactionId) -> (r: Option<&Transaction>)
        ensures
            ({
                let u = first_with_id(self.undo(), transaction_id, 0);
                let d = first_with_id(self.redo(), transaction_id, 0);
                if u < self.undo().len() {
                    r matches Some(t) && t@ == self.undo()[u]
                } else if d < self.redo().len() {
                    r matches Some(t) && t@ == self.redo()[d]
                } else {
                    r is None
                }
            }),
    {
        if let Some(ix) = Self::first_position(&self.undo_stack, transaction_id) {
            Some(&self.undo_stack[ix])
        } else if let Some(ix) = Self::first_position(&self.redo_stack, transaction_id) {
            Some(&self.redo_stack[ix])
        } else {
            None
        }
    }

    /// Adds the entries of buffers that have none yet to a transaction.
    pub fn add_to_transaction(
        &mut self,
        transaction_id: TransactionId,
        entries: &Vec<(BufferId, TransactionId)>,
    )
        ensures
            final(self).same_but_stacks(old(self)),
            ({
                let u = first_with_id(old(self).undo(), transaction_id, 0);
                let d = first_with_id(old(self).redo(), transaction_id, 0);
                if u < old(self).undo().len() {
                    &&& final(self).undo() == old(self).undo().update(
                        u,
                        old(self).undo()[u].with_entries(entries@),
                    )
                    &&& final(self).redo() == old(self).redo()
                } else if d < old(self).redo().len() {
                    &&& final(self).undo() == old(self).undo()
                    &&& final(self).redo() == old(self).redo().update(
                        d,
                        old(self).redo()[d].with_entries(entries@),
                    )
                } else {
                    *final(self) == *old(self)
                }
            }),
    {
        if let Some(ix) = Self::first_position(&self.undo_stack, transaction_id) {
            self.undo_stack[ix].or_insert_all(entries);
            assert(self.undo() =~= old(self).undo().update(
                ix as int,
                old(self).undo()[ix as int].with_entries(entries@),
            ));
        } else if let Some(ix) = Self::first_position(&self.redo_stack, transaction_id) {
            self.redo_stack[ix].or_insert_all(entries);
            assert(self.redo() =~= old(self).redo().update(
                ix as int,
                old(self).redo()[ix as int].with_entries(entries@),
            ));
        }
    }

    /// Moves the latest transaction to those that can be redone. Returns its
    /// identifier.
    pub fn pop_undo(&mut self) -> (r: Option<TransactionId>)
        requires
            old(self).transaction_depth == 0,
        ensures
            final(self).same_but_stacks(old(self)),
            old(self).undo().len() == 0 ==> {
                &&& r is None
                &&& final(self).undo() == old(self).undo()
                &&& final(self).redo() == old(self).redo()
            },
            old(self).undo().len() > 0 ==> {
                &&& r == Some(old(self).undo().last().id)
                &&& final(self).undo() == old(self).undo().drop_last()
                &&& final(self).redo() == old(self).redo().push(old(self).undo().last())
            },
    {
        match self.undo_stack.pop() {
            Some(transaction) => {
                let id = transaction.id;
                self.redo_stack.push(transaction);
                assert(self.undo() =~= old(self).undo().drop_last());
                assert(self.redo() =~= old(self).redo().push(transaction@));
                Some(id)
            },
            None => None,
        }
    }

    /// Moves the next transaction to redo to those that can be undone. Returns
    /// its identifier.
    pub fn pop_redo(&mut self) -> (r: Option<TransactionId>)
        requires
            old(self).transaction_depth == 0,
        ensures
            final(self).same_but_stacks(old(self)),
            old(self).redo().len() == 0 ==> {
                &&& r is None
                &&& final(self).undo() == old(self).undo()
                &&& final(self).redo() == old(self).redo()
            },
            old(self).redo().len() > 0 ==> {
                &&& r == Some(old(self).redo().last().id)
                &&& final(self).redo() == old(self).redo().drop_last()
                &&& final(self).undo() == old(self).undo().push(old(self).redo().last())
            },
    {
        match self.redo_stack.pop() {
            Some(transaction) => {
                let id = transaction.id;
                self.undo_stack.push(transaction);
                assert(self.redo() =~= old(self).redo().drop_last());
                assert(self.undo() =~= old(self).undo().push(transaction@));
                Some(id)
            },
            None => None,
        }
    }

    /// Moves a transaction from anywhere among those that can be undone to
    /// those that can be redone. Returns whether there was one.
    pub fn remove_from_undo(&mut self, transaction_id: TransactionId) -> (r: bool)
        ensures
            final(self).same_but_stacks(old(self)),
            ({
                let u = last_with_id(old(self).undo(), transaction_id);
                &&& r == (u >= 0)
                &&& r ==> {
                    &&& u < old(self).undo().len()
                    &&& final(self).undo() == old(self).undo().remove(u)
                    &&& final(self).redo() == old(self).redo().push(old(self).undo()[u])
                }
                &&& !r ==> {
                    &&& final(self).undo() == old(self).undo()
                    &&& final(self).redo() == old(self).redo()
                }
            }),
    {
        match Self::last_position(&self.undo_stack, transaction_id) {
            Some(ix) => {
                let transaction = self.undo_stack.remove(ix);
                self.redo_stack.push(transaction);
                assert(self.undo() =~= old(self).undo().remove(ix as int));
                assert(self.redo() =~= old(self).redo().push(transaction@));
                true
            },
            None => false,
        }
    }

    /// Merges the transactions that came shortly after one another. Returns the
    /// identifier of the latest transaction.
    pub fn group(&mut self) -> (r: Option<TransactionId>)
        ensures
            final(self).same_but_stacks(old(self)),
            final(self).redo() == old(self).redo(),
            final(self).undo() == grouped(
                old(self).undo(),
                group_count(old(self).undo(), old(self).group_interval),
            ),
            r == if final(self).undo().len() > 0 {
                Some(final(self).undo().last().id)
            } else {
                None
            },
    {
        let ghost all = self.undo();
        let mut count: usize = 0;
        proof {
            lemma_group_count(all, self.group_interval);
            assert(all.take(all.len() as int) =~= all);
        }
        while self.undo_stack.len() - count >= 2 && !self.undo_stack[self.undo_stack.len() - count
            - 2].suppress_grouping && self.undo_stack[self.undo_stack.len() - count
            - 1].first_edit_at.saturating_sub(
            self.undo_stack[self.undo_stack.len() - count - 2].last_edit_at,
        ) <= self.group_interval
            invariant
                *self == *old(self),
                all == self.undo(),
                self.undo_stack@.len() > 0 ==> count < self.undo_stack@.len(),
                self.undo_stack@.len() == 0 ==> count == 0,
                group_count(all, self.group_interval) == count + group_count(
                    all.take(all.len() - count),
                    self.group_interval,
                ),
            decreases self.undo_stack@.len() - count,
        {
            proof {
                let rest = all.take(all.len() - count);
                assert(rest.drop_last() =~= all.take(all.len() - count - 1));
                assert(rest[rest.len() - 1] == self.undo_stack@[rest.len() - 1]@);
                assert(rest[rest.len() - 2] == self.undo_stack@[rest.len() - 2]@);
            }
            count = count + 1;
        }
        proof {
            let rest = all.take(all.len() - count);
            if rest.len() >= 2 {
                assert(rest[rest.len() - 1] == self.undo_stack@[rest.len() - 1]@);
                assert(rest[rest.len() - 2] == self.undo_stack@[rest.len() - 2]@);
            }
        }
        self.group_trailing(count)
    }

    /// Merges all transactions since the one with the identifier into it, where
    /// nothing keeps them apart.
    pub fn group_until(&mut self, transaction_id: TransactionId)
        ensures
            final(self).same_but_stacks(old(self)),
            final(self).redo() == old(self).redo(),
            final(self).undo() == match count_until(old(self).undo(), transaction_id) {
                Some(n) => grouped(old(self).undo(), n),
                None => old(self).undo(),
            },
    {
        let ghost all = self.undo();
        let mut count: usize = 0;
        proof {
            lemma_count_until(all, transaction_id);
            assert(all.take(all.len() as int) =~= all);
        }
        while count < self.undo_stack.len()
            invariant
                *self == *old(self),
                all == self.undo(),
                count <= self.undo_stack@.len(),
                match count_until(all.take(all.len() - count), transaction_id) {
                    Some(n) => count_until(all, transaction_id) == Some(n + count),
                    None => count_until(all, transaction_id) is None,
                },
            decreases self.undo_stack@.len() - count,
        {
            let ix: usize = self.undo_stack.len() - count - 1;
            proof {
                let rest = all.take(all.len() - count);
                assert(rest.drop_last() =~= all.take(all.len() - count - 1));
                assert(rest.last() == self.undo_stack@[ix as int]@);
            }
            if self.undo_stack[ix].id == transaction_id {
                let _ = self.group_trailing(count);
                return ;
            }
            if self.undo_stack[ix].suppress_grouping {
                return ;
            }
            count = count + 1;
        }
    }

    /// Merges the last `n` transactions into the one before them. Returns the
    /// identifier of the latest transaction.
    fn group_trailing(&mut self, n: usize) -> (r: Option<TransactionId>)
        requires
            n <= old(self).undo_stack@.len(),
        ensures
            final(self).same_but_stacks(old(self)),
            final(self).redo() == old(self).redo(),
            final(self).undo() == grouped(old(self).undo(), n as int),
            r == if final(self).undo().len() > 0 {
                Some(final(self).undo().last().id)
            } else {
                None
            },
    {
        let ghost all = self.undo();
        let len: usize = self.undo_stack.len();
        let kept: usize = len - n;
        if kept > 0 && n > 0 {
            let last_edit_at: u64 = self.undo_stack[len - 1].last_edit_at;
            self.undo_stack[kept - 1].last_edit_at = last_edit_at;
            let mut j: usize = kept;
            assert(all.skip(kept as int).take(0) =~= Seq::<TransactionModel>::empty());
            while j < len
                invariant
                    0 < kept <= j <= len,
                    len == self.undo_stack@.len(),
                    len == all.len(),
                    self.same_but_stacks(old(self)),
                    self.redo_stack == old(self).redo_stack,
                    forall|k: int|
                        0 <= k < len && k != kept - 1 ==> (#[trigger] self.undo_stack@[k])@
                            == all[k],
                    self.undo_stack@[kept - 1]@ == (TransactionModel {
                        last_edit_at,
                        buffer_transactions: or_insert_transactions(
                            all[kept - 1].buffer_transactions,
                            all.skip(kept as int).take(j - kept),
                        ),
                        ..all[kept - 1]
                    }),
                decreases len - j,
            {
                let mut k: usize = 0;
                let ghost more = all[j as int].buffer_transactions;
                let ghost so_far = self.undo_stack@[kept - 1].buffer_transactions@;
                assert(self.undo_stack@[j as int].buffer_transactions@ == more);
                assert(more.take(0) =~= Seq::<(BufferId, TransactionId)>::empty());
                while k < self.undo_stack[j].buffer_transactions.len()
                    invariant
                        0 < kept <= j < len,
                        len == self.undo_stack@.len(),
                        len == all.len(),
                        k <= more.len(),
                        more == all[j as int].buffer_transactions,
                        self.same_but_stacks(old(self)),
                        self.redo_stack == old(self).redo_stack,
                        forall|m: int|
                            0 <= m < len && m != kept - 1 ==> (#[trigger] self.undo_stack@[m])@
                                == all[m],
                        self.undo_stack@[kept - 1]@ == (TransactionModel {
                            last_edit_at,
                            buffer_transactions: or_insert_all(so_far, more.take(k as int)),
                            ..all[kept - 1]
                        }),
                    decreases more.len() - k,
                {
                    assert(self.undo_stack@[j as int]@ == all[j as int]);
                    proof {
                        assert(more.take(k + 1).drop_last() =~= more.take(k as int));
                    }
                    let entry = self.undo_stack[j].buffer_transactions[k];
                    self.undo_stack[kept - 1].or_insert(entry);
                    k = k + 1;
                }
                proof {
                    assert(self.undo_stack@[j as int]@ == all[j as int]);
                    assert(more.take(more.len() as int) =~= more);
                    let merged = all.skip(kept as int);
                    assert(merged.take(j + 1 - kept).drop_last() =~= merged.take(j - kept));
                    assert(merged.take(j + 1 - kept).last() == all[j as int]);
                }
                j = j + 1;
            }
            assert(all.skip(kept as int).take(len - kept) =~= all.skip(kept as int));
        }
        self.undo_stack.truncate(kept);
        assert(self.undo() =~= grouped(all, n as int));
        if kept > 0 {
            Some(self.undo_stack[kept - 1].id)
        } else {
            None
        }
    }
}

} // verus!
