//! Undoing and redoing over several buffers.
//!
//! Only the buffers can undo their edits. The functions here say what to ask of
//! them, and take their replies.

use vstd::prelude::*;

use crate::buffer::BufferId;
use crate::history::{
    count_until, entry_from, first_with_id, group_count, grouped, inserted_all, last_with_id,
    lemma_group_count, with_started, without_last, Transaction, TransactionId, TransactionModel,
};
use crate::multi_buffer::{BufferState, Event, MultiBuffer};

verus! {

/// Whether the multibuffer knows a buffer.
pub open spec fn is_known(states: Seq<BufferState>, buffer_id: BufferId) -> bool {
    exists|s: int| 0 <= s < states.len() && (#[trigger] states[s]).buffer.remote_id == buffer_id
}

/// Those of the entries whose buffers the multibuffer knows.
pub open spec fn known_entries(
    states: Seq<BufferState>,
    entries: Seq<(BufferId, TransactionId)>,
) -> Seq<(BufferId, TransactionId)>
    decreases entries.len(),
{
    if entries.len() == 0 {
        seq![]
    } else {
        let front = known_entries(states, entries.drop_last());
        if is_known(states, entries.last().0) {
            front.push(entries.last())
        } else {
            front
        }
    }
}

/// What a buffer replies when it is asked to undo or redo up to one of its
/// transactions.
#[derive(Clone, Copy, Debug)]
pub struct BufferReply {
    /// The transaction that was on top of the buffer's stack before.
    pub top: Option<TransactionId>,
    /// Whether anything was undone or redone.
    pub changed: bool,
}

/// The entries after the known buffers have replied: each of those is left with
/// the transaction that was on top of its stack.
pub open spec fn answered(
    states: Seq<BufferState>,
    entries: Seq<(BufferId, TransactionId)>,
    replies: Seq<BufferReply>,
) -> Seq<(BufferId, TransactionId)>
    decreases entries.len(),
{
    if entries.len() == 0 {
        seq![]
    } else {
        let front = entries.drop_last();
        let entry = entries.last();
        let n = known_entries(states, front).len() as int;
        let new_entry = if is_known(states, entry.0) && replies[n].top is Some {
            (entry.0, replies[n].top->0)
        } else {
            entry
        };
        answered(states, front, replies).push(new_entry)
    }
}

/// Whether a buffer undid or redid anything.
pub open spec fn some_changed(replies: Seq<BufferReply>) -> bool {
    exists|k: int| 0 <= k < replies.len() && (#[trigger] replies[k]).changed
}

/// What moves an undo or a redo on.
#[derive(Debug)]
pub enum HistoryEvent {
    Start,
    /// The only buffer has replied with the transaction that it undid or redid.
    SingletonReplied(Option<TransactionId>),
    /// The buffers that were asked have replied, in the same order.
    BuffersReplied(Vec<BufferReply>),
}

/// What an undo or a redo needs next.
#[derive(Debug)]
pub enum HistoryAction {
    /// Let the only buffer undo or redo.
    AskSingleton(BufferId),
    /// Let buffers undo or redo up to their transactions.
    AskBuffers(Vec<(BufferId, TransactionId)>),
    /// It is done, and this transaction was undone or redone.
    Done(Option<TransactionId>),
}

/// Moving the latest transaction of one stack to another.
pub open spec fn moved(from: Seq<TransactionModel>, to: Seq<TransactionModel>) -> (
    Seq<TransactionModel>,
    Seq<TransactionModel>,
) {
    if from.len() == 0 {
        (from, to)
    } else {
        (from.drop_last(), to.push(from.last()))
    }
}

/// What is undone and redone again is where it was.
pub proof fn lemma_redo_after_undo(undo: Seq<TransactionModel>, redo: Seq<TransactionModel>)
    requires
        undo.len() > 0,
    ensures
        ({
            let after_undo = moved(undo, redo);
            let after_redo = moved(after_undo.1, after_undo.0);
            after_redo.0 == redo && after_redo.1 == undo
        }),
{
    let after_undo = moved(undo, redo);
    assert(after_undo.1.drop_last() =~= redo);
    assert(after_undo.0.push(undo.last()) =~= undo);
}

/// The stack with the entries of its latest transaction answered.
pub open spec fn with_answers(
    states: Seq<BufferState>,
    stack: Seq<TransactionModel>,
    replies: Seq<BufferReply>,
) -> Seq<TransactionModel> {
    stack.update(
        stack.len() - 1,
        TransactionModel {
            buffer_transactions: answered(
                states,
                stack.last().buffer_transactions,
                replies,
            ),
            ..stack.last()
        },
    )
}

/// Whether `action` asks for the transaction that is next to move, or ends where
/// there is none.
pub open spec fn asks_for_next(
    action: HistoryAction,
    states: Seq<BufferState>,
    from: Seq<TransactionModel>,
) -> bool {
    if from.len() == 0 {
        action == HistoryAction::Done(None)
    } else {
        action matches HistoryAction::AskBuffers(asked) && asked@ == known_entries(
            states,
            from.last().buffer_transactions,
        )
    }
}

impl MultiBuffer {
    /// Whether only the history and what is to be emitted differs.
    pub open spec fn same_but_history(&self, before: &MultiBuffer) -> bool {
        *self == (MultiBuffer { history: self.history, events: self.events, ..*before })
    }

    /// Whether the undoing of a transaction was announced, if one was undone.
    pub open spec fn announces_undo(
        &self,
        before: &MultiBuffer,
        undone: Option<TransactionId>,
    ) -> bool {
        match undone {
            Some(transaction_id) => self.events@ == before.events@.push(
                Event::TransactionUndone { transaction_id },
            ),
            None => self.events == before.events,
        }
    }

    /// Whether the multibuffer knows a buffer.
    fn knows_buffer(&self, buffer_id: BufferId) -> (r: bool)
        ensures
            r == is_known(self.buffers@, buffer_id),
    {
        self.buffer_state_index(buffer_id).is_some()
    }

    /// Those of the entries whose buffers the multibuffer knows.
    fn known_entries(&self, entries: &Vec<(BufferId, TransactionId)>) -> (r: Vec<
        (BufferId, TransactionId),
    >)
        ensures
            r@ == known_entries(self.buffers@, entries@),
    {
        let mut r: Vec<(BufferId, TransactionId)> = Vec::new();
        let mut k: usize = 0;
        assert(entries@.take(0) =~= Seq::<(BufferId, TransactionId)>::empty());
        while k < entries.len()
            invariant
                k <= entries@.len(),
                r@ == known_entries(self.buffers@, entries@.take(k as int)),
            decreases entries@.len() - k,
        {
            assert(entries@.take(k + 1).drop_last() =~= entries@.take(k as int));
            if self.knows_buffer(entries[k].0) {
                r.push(entries[k]);
            }
            k = k + 1;
        }
        assert(entries@.take(entries@.len() as int) =~= entries@);
        r
    }

    /// The entries after the known buffers have replied.
    fn answered(
        &self,
        entries: &Vec<(BufferId, TransactionId)>,
        replies: &Vec<BufferReply>,
    ) -> (r: Vec<(BufferId, TransactionId)>)
        requires
            replies@.len() == known_entries(self.buffers@, entries@).len(),
        ensures
            r@ == answered(self.buffers@, entries@, replies@),
    {
        let mut r: Vec<(BufferId, TransactionId)> = Vec::new();
        let mut n: usize = 0;
        let mut k: usize = 0;
        assert(entries@.take(0) =~= Seq::<(BufferId, TransactionId)>::empty());
        assert(entries@.take(entries@.len() as int) =~= entries@);
        while k < entries.len()
            invariant
                k <= entries@.len(),
                replies@.len() == known_entries(self.buffers@, entries@).len(),
                n == known_entries(self.buffers@, entries@.take(k as int)).len(),
                r@ == answered(self.buffers@, entries@.take(k as int), replies@),
            decreases entries@.len() - k,
        {
            let entry = entries[k];
            proof {
                assert(entries@.take(k + 1).drop_last() =~= entries@.take(k as int));
                lemma_known_entries_grow(self.buffers@, entries@, k + 1);
            }
            if self.knows_buffer(entry.0) {
                match replies[n].top {
                    Some(top) => r.push((entry.0, top)),
                    None => r.push(entry),
                }
                assert(n < replies.len());
                n = n + 1;
            } else {
                r.push(entry);
            }
            k = k + 1;
        }
        r
    }
}

proof fn lemma_known_entries_grow(
    states: Seq<BufferState>,
    entries: Seq<(BufferId, TransactionId)>,
    k: int,
)
    requires
        0 <= k <= entries.len(),
    ensures
        known_entries(states, entries.take(k)).len() <= known_entries(states, entries).len(),
    decreases entries.len() - k,
{
    if k < entries.len() {
        lemma_known_entries_grow(states, entries, k + 1);
        assert(entries.take(k + 1).drop_last() =~= entries.take(k));
    } else {
        assert(entries.take(k) =~= entries);
    }
}

/// Whether a reply was `changed`.
fn any_changed(replies: &Vec<BufferReply>) -> (r: bool)
    ensures
        r == some_changed(replies@),
{
    let mut k: usize = 0;
    while k < replies.len()
        invariant
            k <= replies@.len(),
            forall|j: int| 0 <= j < k ==> !(#[trigger] replies@[j]).changed,
        decreases replies@.len() - k,
    {
        if replies[k].changed {
            assert(replies@[k as int].changed);
            return true;
        }
        k = k + 1;
    }
    false
}

impl MultiBuffer {
    /// Moves the latest transaction to those that can be redone, and asks for it.
    fn undo_next(&mut self) -> (r: HistoryAction)
        requires
            old(self).history.transaction_depth == 0,
        ensures
            final(self).same_but_history(old(self)),
            final(self).events == old(self).events,
            final(self).history.same_but_stacks(&old(self).history),
            (final(self).history.undo(), final(self).history.redo()) == moved(
                old(self).history.undo(),
                old(self).history.redo(),
            ),
            asks_for_next(r, old(self).buffers@, old(self).history.undo()),
    {
        match self.history.pop_undo() {
            Some(_) => {
                assert(self.history.redo().len() > 0);
                let last: usize = self.history.redo_stack.len() - 1;
                assert(self.history.redo().last() == self.history.redo_stack@[last as int]@);
                let asked = self.known_entries(&self.history.redo_stack[last].buffer_transactions);
                HistoryAction::AskBuffers(asked)
            },
            None => HistoryAction::Done(None),
        }
    }

    /// Moves the next transaction to those that can be undone, and asks for it.
    fn redo_next(&mut self) -> (r: HistoryAction)
        requires
            old(self).history.transaction_depth == 0,
        ensures
            final(self).same_but_history(old(self)),
            final(self).events == old(self).events,
            final(self).history.same_but_stacks(&old(self).history),
            (final(self).history.redo(), final(self).history.undo()) == moved(
                old(self).history.redo(),
                old(self).history.undo(),
            ),
            asks_for_next(r, old(self).buffers@, old(self).history.redo()),
    {
        match self.history.pop_redo() {
            Some(_) => {
                assert(self.history.undo().len() > 0);
                let last: usize = self.history.undo_stack.len() - 1;
                assert(self.history.undo().last() == self.history.undo_stack@[last as int]@);
                let asked = self.known_entries(&self.history.undo_stack[last].buffer_transactions);
                HistoryAction::AskBuffers(asked)
            },
            None => HistoryAction::Done(None),
        }
    }

    /// Whether an undo or a redo that moves transactions to `stack` can take an
    /// event.
    pub open spec fn can_take(
        &self,
        event: HistoryEvent,
        stack: Seq<TransactionModel>,
    ) -> bool {
        match event {
            HistoryEvent::Start => self.singleton ==> self.buffers@.len() > 0,
            HistoryEvent::SingletonReplied(_) => self.singleton,
            HistoryEvent::BuffersReplied(replies) => {
                &&& !self.singleton
                &&& stack.len() > 0
                &&& replies@.len() == known_entries(
                    self.buffers@,
                    stack.last().buffer_transactions,
                ).len()
            },
        }
    }

    /// Undoes the latest transaction of which any buffer can undo a part.
    pub fn undo(&mut self, event: HistoryEvent) -> (r: HistoryAction)
        requires
            old(self).history.transaction_depth == 0,
            old(self).can_take(event, old(self).history.redo()),
        ensures
            final(self).same_but_history(old(self)),
            final(self).history.same_but_stacks(&old(self).history),
            r matches HistoryAction::Done(undone) ==> final(self).announces_undo(
                old(self),
                undone,
            ),
            !(r is Done) ==> final(self).events == old(self).events,
            ({
                let undo = old(self).history.undo();
                let redo = old(self).history.redo();
                let states = old(self).buffers@;
                match event {
                    HistoryEvent::Start => if old(self).singleton {
                        &&& r == HistoryAction::AskSingleton(states[0].buffer.remote_id)
                        &&& final(self).history == old(self).history
                    } else {
                        &&& asks_for_next(r, states, undo)
                        &&& (final(self).history.undo(), final(self).history.redo()) == moved(
                            undo,
                            redo,
                        )
                    },
                    HistoryEvent::SingletonReplied(undone) => {
                        &&& r == HistoryAction::Done(undone)
                        &&& final(self).history == old(self).history
                    },
                    HistoryEvent::BuffersReplied(replies) => {
                        let answered = with_answers(states, redo, replies@);
                        if some_changed(replies@) {
                            &&& r == HistoryAction::Done(Some(redo.last().id))
                            &&& final(self).history.undo() == undo
                            &&& final(self).history.redo() == answered
                        } else {
                            &&& asks_for_next(r, states, undo)
                            &&& (final(self).history.undo(), final(self).history.redo()) == moved(
                                undo,
                                answered,
                            )
                        }
                    },
                }
            }),
    {
        match event {
            HistoryEvent::Start => {
                if let Some(buffer_id) = self.as_singleton() {
                    HistoryAction::AskSingleton(buffer_id)
                } else {
                    self.undo_next()
                }
            },
            HistoryEvent::SingletonReplied(undone) => {
                if let Some(transaction_id) = undone {
                    self.events.push(Event::TransactionUndone { transaction_id });
                }
                HistoryAction::Done(undone)
            },
            HistoryEvent::BuffersReplied(replies) => {
                let last: usize = self.history.redo_stack.len() - 1;
                assert(self.history.redo().last() == self.history.redo_stack@[last as int]@);
                let entries = self.answered(
                    &self.history.redo_stack[last].buffer_transactions,
                    &replies,
                );
                self.history.redo_stack[last].buffer_transactions = entries;
                assert(self.history.redo() =~= with_answers(
                    old(self).buffers@,
                    old(self).history.redo(),
                    replies@,
                ));
                assert(self.history.undo() =~= old(self).history.undo());
                if any_changed(&replies) {
                    let transaction_id = self.history.redo_stack[last].id;
                    self.events.push(Event::TransactionUndone { transaction_id });
                    HistoryAction::Done(Some(transaction_id))
                } else {
                    self.undo_next()
                }
            },
        }
    }

    /// Redoes the next transaction of which any buffer can redo a part.
    pub fn redo(&mut self, event: HistoryEvent) -> (r: HistoryAction)
        requires
            old(self).history.transaction_depth == 0,
            old(self).can_take(event, old(self).history.undo()),
        ensures
            final(self).same_but_history(old(self)),
            final(self).events == old(self).events,
            final(self).history.same_but_stacks(&old(self).history),
            ({
                let undo = old(self).history.undo();
                let redo = old(self).history.redo();
                let states = old(self).buffers@;
                match event {
                    HistoryEvent::Start => if old(self).singleton {
                        &&& r == HistoryAction::AskSingleton(states[0].buffer.remote_id)
                        &&& final(self).history == old(self).history
                    } else {
                        &&& asks_for_next(r, states, redo)
                        &&& (final(self).history.redo(), final(self).history.undo()) == moved(
                            redo,
                            undo,
                        )
                    },
                    HistoryEvent::SingletonReplied(redone) => {
                        &&& r == HistoryAction::Done(redone)
                        &&& final(self).history == old(self).history
                    },
                    HistoryEvent::BuffersReplied(replies) => {
                        let answered = with_answers(states, undo, replies@);
                        if some_changed(replies@) {
                            &&& r == HistoryAction::Done(Some(undo.last().id))
                            &&& final(self).history.redo() == redo
                            &&& final(self).history.undo() == answered
                        } else {
                            &&& asks_for_next(r, states, redo)
                            &&& (final(self).history.redo(), final(self).history.undo()) == moved(
                                redo,
                                answered,
                            )
                        }
                    },
                }
            }),
    {
        match event {
            HistoryEvent::Start => {
                if let Some(buffer_id) = self.as_singleton() {
                    HistoryAction::AskSingleton(buffer_id)
                } else {
                    self.redo_next()
                }
            },
            HistoryEvent::SingletonReplied(redone) => HistoryAction::Done(redone),
            HistoryEvent::BuffersReplied(replies) => {
                let last: usize = self.history.undo_stack.len() - 1;
                assert(self.history.undo().last() == self.history.undo_stack@[last as int]@);
                let entries = self.answered(
                    &self.history.undo_stack[last].buffer_transactions,
                    &replies,
                );
                self.history.undo_stack[last].buffer_transactions = entries;
                assert(self.history.undo() =~= with_answers(
                    old(self).buffers@,
                    old(self).history.undo(),
                    replies@,
                ));
                assert(self.history.redo() =~= old(self).history.redo());
                if any_changed(&replies) {
                    HistoryAction::Done(Some(self.history.undo_stack[last].id))
                } else {
                    self.redo_next()
                }
            },
        }
    }
}

impl MultiBuffer {
    /// Opens a transaction. The only buffer has replied with the transaction that
    /// it opened.
    pub fn start_transaction_at(
        &mut self,
        now: u64,
        of_singleton: Option<TransactionId>,
    ) -> (r: Option<TransactionId>)
        requires
            !old(self).singleton ==> old(self).history.transaction_depth < usize::MAX
                && old(self).history.next_transaction_id.value < u32::MAX,
        ensures
            final(self).same_but_history(old(self)),
            final(self).events == old(self).events,
            old(self).singleton ==> r == of_singleton && final(self).history
                == old(self).history,
            !old(self).singleton ==> {
                let id = old(self).history.next_transaction_id;
                &&& final(self).history.transaction_depth
                    == old(self).history.transaction_depth + 1
                &&& final(self).history.group_interval == old(self).history.group_interval
                &&& final(self).history.redo() == old(self).history.redo()
                &&& if old(self).history.transaction_depth == 0 {
                    &&& r == Some(id)
                    &&& final(self).history.next_transaction_id == (TransactionId {
                        value: (id.value + 1) as u32,
                        ..id
                    })
                    &&& final(self).history.undo() == with_started(
                        old(self).history.undo(),
                        id,
                        now,
                    )
                } else {
                    &&& r is None
                    &&& final(self).history.next_transaction_id == id
                    &&& final(self).history.undo() == old(self).history.undo()
                }
            },
    {
        if self.singleton {
            of_singleton
        } else {
            self.history.start_transaction(now)
        }
    }

    /// Closes a transaction. The buffers have replied with the transactions that
    /// they closed.
    pub fn end_transaction_at(
        &mut self,
        now: u64,
        closed: &Vec<Option<TransactionId>>,
    ) -> (r: Option<TransactionId>)
        requires
            closed@.len() == old(self).buffers@.len(),
            old(self).singleton ==> old(self).buffers@.len() > 0,
            !old(self).singleton ==> old(self).history.transaction_depth > 0,
            !old(self).singleton && old(self).history.transaction_depth == 1 && closed_entries(
                old(self).buffers@,
                closed@,
            ).len() > 0 ==> old(self).history.undo().len() > 0,
        ensures
            final(self).same_but_history(old(self)),
            final(self).events == old(self).events,
            old(self).singleton ==> r == closed@[0] && final(self).history
                == old(self).history,
            !old(self).singleton ==> {
                let entries = closed_entries(old(self).buffers@, closed@);
                let before = old(self).history;
                let after = final(self).history;
                let undo = before.undo();
                &&& after.transaction_depth == before.transaction_depth - 1
                &&& after.next_transaction_id == before.next_transaction_id
                &&& after.group_interval == before.group_interval
                &&& if before.transaction_depth > 1 {
                    r is None && after.undo() == undo && after.redo() == before.redo()
                } else if entries.len() == 0 {
                    r is None && after.undo() == without_last(undo) && after.redo() == before.redo()
                } else {
                    &&& after.redo().len() == 0
                    &&& after.undo() == ended(undo, now, entries, before.group_interval)
                    &&& r == Some(after.undo().last().id)
                }
            },
    {
        if self.singleton {
            return closed[0];
        }
        let ghost before = *self;
        let mut entries: Vec<(BufferId, TransactionId)> = Vec::new();
        let mut s: usize = 0;
        assert(before.buffers@.take(0) =~= Seq::<BufferState>::empty());
        while s < self.buffers.len()
            invariant
                s <= self.buffers@.len(),
                *self == before,
                closed@.len() == self.buffers@.len(),
                entries@ == closed_entries(self.buffers@.take(s as int), closed@),
            decreases self.buffers@.len() - s,
        {
            assert(self.buffers@.take(s + 1).drop_last() =~= self.buffers@.take(s as int));
            if let Some(transaction_id) = closed[s] {
                entries.push((self.buffers[s].buffer.remote_id, transaction_id));
            }
            s = s + 1;
        }
        assert(self.buffers@.take(self.buffers@.len() as int) =~= self.buffers@);
        assert(self.history.undo().len() == self.history.undo_stack@.len());
        if self.history.end_transaction(now, &entries) {
            let ghost closed_undo = self.history.undo();
            proof {
                lemma_group_count(closed_undo, before.history.group_interval);
            }
            self.history.group()
        } else {
            None
        }
    }

    /// Lets the latest transaction stay apart from later ones.
    pub fn finalize_last_transaction(&mut self)
        ensures
            final(self).same_but_history(old(self)),
            final(self).events == old(self).events,
            final(self).history.same_but_stacks(&old(self).history),
            final(self).history.redo() == old(self).history.redo(),
            final(self).history.undo() == finalized(old(self).history.undo()),
    {
        self.history.finalize_last_transaction();
    }

    /// Adds a transaction that buffers have been through, and lets it stay apart
    /// from later ones.
    pub fn push_transaction(
        &mut self,
        buffer_transactions: Vec<(BufferId, TransactionId)>,
        now: u64,
    )
        requires
            old(self).history.transaction_depth == 0,
            old(self).history.next_transaction_id.value < u32::MAX,
        ensures
            final(self).same_but_history(old(self)),
            final(self).events == old(self).events,
            final(self).history.transaction_depth == 0,
            final(self).history.group_interval == old(self).history.group_interval,
            ({
                let id = old(self).history.next_transaction_id;
                &&& final(self).history.next_transaction_id == (TransactionId {
                    value: (id.value + 1) as u32,
                    ..id
                })
                &&& if buffer_transactions@.len() == 0 {
                    &&& final(self).history.undo() == finalized(old(self).history.undo())
                    &&& final(self).history.redo() == old(self).history.redo()
                } else {
                    &&& final(self).history.undo() == finalized(
                        old(self).history.undo().push(
                            TransactionModel {
                                id,
                                buffer_transactions: inserted_all(seq![], buffer_transactions@),
                                first_edit_at: now,
                                last_edit_at: now,
                                suppress_grouping: false,
                            },
                        ),
                    )
                    &&& final(self).history.redo().len() == 0
                }
            }),
    {
        self.history.push_transaction(buffer_transactions, now);
        self.history.finalize_last_transaction();
    }

    /// Merges the transactions since the one with the identifier into it. Returns
    /// the only buffer, where that one is to do so.
    pub fn group_until_transaction(&mut self, transaction_id: TransactionId) -> (r: Option<
        BufferId,
    >)
        requires
            old(self).singleton ==> old(self).buffers@.len() > 0,
        ensures
            final(self).same_but_history(old(self)),
            final(self).events == old(self).events,
            old(self).singleton ==> {
                &&& r == Some(old(self).buffers@[0].buffer.remote_id)
                &&& final(self).history == old(self).history
            },
            !old(self).singleton ==> {
                &&& r is None
                &&& final(self).history.same_but_stacks(&old(self).history)
                &&& final(self).history.redo() == old(self).history.redo()
                &&& final(self).history.undo() == match count_until(
                    old(self).history.undo(),
                    transaction_id,
                ) {
                    Some(n) => grouped(old(self).history.undo(), n),
                    None => old(self).history.undo(),
                }
            },
    {
        if let Some(buffer_id) = self.as_singleton() {
            Some(buffer_id)
        } else {
            self.history.group_until(transaction_id);
            None
        }
    }

    /// Moves a transaction to those that can be redone. Returns which buffers are
    /// to undo which of their transactions.
    pub fn undo_transaction(&mut self, transaction_id: TransactionId) -> (r: Vec<
        (BufferId, TransactionId),
    >)
        requires
            old(self).singleton ==> old(self).buffers@.len() > 0,
        ensures
            final(self).same_but_history(old(self)),
            final(self).events == old(self).events,
            final(self).history.same_but_stacks(&old(self).history),
            old(self).singleton ==> {
                &&& r@ == seq![(old(self).buffers@[0].buffer.remote_id, transaction_id)]
                &&& final(self).history == old(self).history
            },
            !old(self).singleton ==> {
                let undo = old(self).history.undo();
                let u = last_with_id(undo, transaction_id);
                if u >= 0 {
                    &&& r@ == known_entries(old(self).buffers@, undo[u].buffer_transactions)
                    &&& final(self).history.undo() == undo.remove(u)
                    &&& final(self).history.redo() == old(self).history.redo().push(undo[u])
                } else {
                    &&& r@.len() == 0
                    &&& final(self).history.undo() == undo
                    &&& final(self).history.redo() == old(self).history.redo()
                }
            },
    {
        if let Some(buffer_id) = self.as_singleton() {
            let mut r: Vec<(BufferId, TransactionId)> = Vec::new();
            r.push((buffer_id, transaction_id));
            r
        } else if self.history.remove_from_undo(transaction_id) {
            assert(self.history.redo().len() > 0);
            let last: usize = self.history.redo_stack.len() - 1;
            assert(self.history.redo().last() == self.history.redo_stack@[last as int]@);
            self.known_entries(&self.history.redo_stack[last].buffer_transactions)
        } else {
            Vec::new()
        }
    }

    /// Forgets a transaction. Returns which buffers are to forget which of their
    /// transactions.
    pub fn forget_transaction(&mut self, transaction_id: TransactionId) -> (r: Vec<
        (BufferId, TransactionId),
    >)
        requires
            old(self).singleton ==> old(self).buffers@.len() > 0,
        ensures
            final(self).same_but_history(old(self)),
            final(self).events == old(self).events,
            final(self).history.same_but_stacks(&old(self).history),
            old(self).singleton ==> {
                &&& r@ == seq![(old(self).buffers@[0].buffer.remote_id, transaction_id)]
                &&& final(self).history == old(self).history
            },
            !old(self).singleton ==> {
                let before = old(self).history;
                let u = last_with_id(before.undo(), transaction_id);
                let d = last_with_id(before.redo(), transaction_id);
                &&& (final(self).history.undo(), final(self).history.redo()) == forgotten(
                    before.undo(),
                    before.redo(),
                    transaction_id,
                )
                &&& if u >= 0 {
                    r@ == known_entries(old(self).buffers@, before.undo()[u].buffer_transactions)
                } else if d >= 0 {
                    r@ == known_entries(old(self).buffers@, before.redo()[d].buffer_transactions)
                } else {
                    r@.len() == 0
                }
            },
    {
        if let Some(buffer_id) = self.as_singleton() {
            let mut r: Vec<(BufferId, TransactionId)> = Vec::new();
            r.push((buffer_id, transaction_id));
            r
        } else {
            match self.history.forget(transaction_id) {
                Some(transaction) => self.known_entries(&transaction.buffer_transactions),
                None => Vec::new(),
            }
        }
    }

    /// Merges a transaction into another. Returns which buffers are to merge which
    /// of their transactions, each into the second of the two.
    pub fn merge_transactions(
        &mut self,
        transaction: TransactionId,
        destination: TransactionId,
    ) -> (r: Vec<(BufferId, TransactionId, TransactionId)>)
        requires
            old(self).singleton ==> old(self).buffers@.len() > 0,
        ensures
            final(self).same_but_history(old(self)),
            final(self).events == old(self).events,
            final(self).history.same_but_stacks(&old(self).history),
            old(self).singleton ==> {
                &&& r@ == seq![
                    (old(self).buffers@[0].buffer.remote_id, transaction, destination),
                ]
                &&& final(self).history == old(self).history
            },
            !old(self).singleton ==> {
                let undo = old(self).history.undo();
                let redo = old(self).history.redo();
                let (left_undo, left_redo) = forgotten(undo, redo, transaction);
                let u = first_with_id(left_undo, destination, 0);
                let d = first_with_id(left_redo, destination, 0);
                match find_last(undo, redo, transaction) {
                    Some(merged) => if u < left_undo.len() {
                        &&& final(self).history.undo() == left_undo.update(
                            u,
                            left_undo[u].with_entries(merged.buffer_transactions),
                        )
                        &&& final(self).history.redo() == left_redo
                        &&& r@ == merges(
                            old(self).buffers@,
                            merged.buffer_transactions,
                            left_undo[u].buffer_transactions,
                        )
                    } else if d < left_redo.len() {
                        &&& final(self).history.undo() == left_undo
                        &&& final(self).history.redo() == left_redo.update(
                            d,
                            left_redo[d].with_entries(merged.buffer_transactions),
                        )
                        &&& r@ == merges(
                            old(self).buffers@,
                            merged.buffer_transactions,
                            left_redo[d].buffer_transactions,
                        )
                    } else {
                        &&& final(self).history.undo() == left_undo
                        &&& final(self).history.redo() == left_redo
                        &&& r@.len() == 0
                    },
                    None => {
                        &&& final(self).history.undo() == undo
                        &&& final(self).history.redo() == redo
                        &&& r@.len() == 0
                    },
                }
            },
    {
        if let Some(buffer_id) = self.as_singleton() {
            let mut r: Vec<(BufferId, TransactionId, TransactionId)> = Vec::new();
            r.push((buffer_id, transaction, destination));
            return r;
        }
        match self.history.forget(transaction) {
            Some(merged) => {
                let r = match self.history.transaction(destination) {
                    Some(into) => self.merges(&merged.buffer_transactions, into),
                    None => Vec::new(),
                };
                self.history.add_to_transaction(destination, &merged.buffer_transactions);
                r
            },
            None => Vec::new(),
        }
    }

    /// Which buffers are to merge which of their transactions.
    fn merges(&self, entries: &Vec<(BufferId, TransactionId)>, into: &Transaction) -> (r: Vec<
        (BufferId, TransactionId, TransactionId),
    >)
        ensures
            r@ == merges(self.buffers@, entries@, into.buffer_transactions@),
    {
        let mut r: Vec<(BufferId, TransactionId, TransactionId)> = Vec::new();
        let mut k: usize = 0;
        assert(entries@.take(0) =~= Seq::<(BufferId, TransactionId)>::empty());
        while k < entries.len()
            invariant
                k <= entries@.len(),
                r@ == merges(
                    self.buffers@,
                    entries@.take(k as int),
                    into.buffer_transactions@,
                ),
            decreases entries@.len() - k,
        {
            assert(entries@.take(k + 1).drop_last() =~= entries@.take(k as int));
            let entry = entries[k];
            if let Some(destination) = into.get(entry.0) {
                if self.knows_buffer(entry.0) {
                    r.push((entry.0, entry.1, destination));
                }
            }
            k = k + 1;
        }
        assert(entries@.take(entries@.len() as int) =~= entries@);
        r
    }
}

/// The transactions that buffers closed.
pub open spec fn closed_entries(
    states: Seq<BufferState>,
    closed: Seq<Option<TransactionId>>,
) -> Seq<(BufferId, TransactionId)>
    decreases states.len(),
{
    if states.len() == 0 {
        seq![]
    } else {
        let front = closed_entries(states.drop_last(), closed);
        match closed[states.len() - 1] {
            Some(id) => front.push((states.last().buffer.remote_id, id)),
            None => front,
        }
    }
}

/// The transactions after the latest, open one has ended with entries, and those
/// that came shortly after one another were merged.
pub open spec fn ended(
    undo: Seq<TransactionModel>,
    now: u64,
    entries: Seq<(BufferId, TransactionId)>,
    interval: u64,
) -> Seq<TransactionModel> {
    let closed = undo.update(
        undo.len() - 1,
        TransactionModel { last_edit_at: now, ..undo.last().with_entries(entries) },
    );
    grouped(closed, group_count(closed, interval))
}

/// The transactions, the latest of them kept apart from later ones.
pub open spec fn finalized(ts: Seq<TransactionModel>) -> Seq<TransactionModel> {
    if ts.len() == 0 {
        ts
    } else {
        ts.update(ts.len() - 1, TransactionModel { suppress_grouping: true, ..ts.last() })
    }
}

/// The stacks without a transaction.
pub open spec fn forgotten(
    undo: Seq<TransactionModel>,
    redo: Seq<TransactionModel>,
    id: TransactionId,
) -> (Seq<TransactionModel>, Seq<TransactionModel>) {
    let u = last_with_id(undo, id);
    let d = last_with_id(redo, id);
    if u >= 0 {
        (undo.remove(u), redo)
    } else if d >= 0 {
        (undo, redo.remove(d))
    } else {
        (undo, redo)
    }
}

/// A transaction of the stacks.
pub open spec fn find_last(
    undo: Seq<TransactionModel>,
    redo: Seq<TransactionModel>,
    id: TransactionId,
) -> Option<TransactionModel> {
    let u = last_with_id(undo, id);
    let d = last_with_id(redo, id);
    if u >= 0 {
        Some(undo[u])
    } else if d >= 0 {
        Some(redo[d])
    } else {
        None
    }
}

/// Which known buffers merge which of their transactions, where both the merged
/// transaction and the one that it goes into hold one.
pub open spec fn merges(
    states: Seq<BufferState>,
    entries: Seq<(BufferId, TransactionId)>,
    into: Seq<(BufferId, TransactionId)>,
) -> Seq<(BufferId, TransactionId, TransactionId)>
    decreases entries.len(),
{
    if entries.len() == 0 {
        seq![]
    } else {
        let front = merges(states, entries.drop_last(), into);
        let entry = entries.last();
        match entry_from(into, entry.0, 0) {
            Some(destination) => if is_known(states, entry.0) {
                front.push((entry.0, entry.1, destination))
            } else {
                front
            },
            None => front,
        }
    }
}

} // verus!
