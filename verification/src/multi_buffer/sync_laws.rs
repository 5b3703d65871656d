//! What holds of a multibuffer that has caught up with its buffers.

use std::ops::Range;
use vstd::prelude::*;

use crate::buffer::BufferId;
use crate::clock::is_newer;
use crate::excerpt::{excerpt_start, Excerpt, ExcerptId};
use crate::multi_buffer::sync::{
    edits_within, ids_of, is_edited, is_updated, owner, some_edited, some_updated, synced,
    synced_edits, BufferUpdate,
};
use crate::multi_buffer::{
    buffers_wf, has_state, locators_of, state_of, states_distinct, BufferState, Edit, Event,
    MultiBuffer,
};

verus! {

/// Whether an edit is the `k`-th of those within an excerpt, counted from where the excerpt
/// started and starts.
pub open spec fn is_told(
    within: Seq<Edit>,
    k: int,
    old_start: int,
    new_start: int,
    edit: Edit,
) -> bool {
    &&& 0 <= k < within.len()
    &&& edit.old.start == (within[k].old.start + old_start) as usize
    &&& edit.old.end == (within[k].old.end + old_start) as usize
    &&& edit.new.start == (within[k].new.start + new_start) as usize
    &&& edit.new.end == (within[k].new.end + new_start) as usize
}

proof fn lemma_ordinal_counts(es: Seq<Excerpt>, buffer_id: BufferId)
    ensures
        locators_of(es, buffer_id).len() == es.filter(
            |e: Excerpt| e.buffer_id == buffer_id,
        ).len(),
    decreases es.len(),
{
    reveal(Seq::filter);
    if es.len() > 0 {
        lemma_ordinal_counts(es.drop_last(), buffer_id);
    }
}

proof fn lemma_owner(es: Seq<Excerpt>, states: Seq<BufferState>, i: int, s: int)
    requires
        buffers_wf(es, states),
        0 <= i < es.len(),
        0 <= s < states.len(),
        es[i].wf(),
        states[s].buffer.remote_id == es[i].buffer_id,
    ensures
        owner(states, es[i]) == s,
        states[s].buffer == es[i].buffer,
{
    assert(has_state(states, es[i]) && states_distinct(states)) by {
        reveal(buffers_wf);
    }
    let t = owner(states, es[i]);
    assert(state_of(states, t, es[i]));
    if t < s {
        assert(states[t].buffer.remote_id != states[s].buffer.remote_id);
    } else if s < t {
        assert(states[s].buffer.remote_id != states[t].buffer.remote_id);
    }
}

impl MultiBuffer {
    /// A multibuffer that has caught up shows in each excerpt what its buffer holds by now:
    /// of an edited buffer the range that became of the excerpt, of any other the text as
    /// it was. The excerpts stay where they are, under their identifiers.
    #[verifier::rlimit(50)]
    pub proof fn lemma_caught_up(
        &self,
        before: &MultiBuffer,
        updates: Seq<BufferUpdate>,
        i: int,
        s: int,
    )
        requires
            before.wf(),
            self.has_synced(before, updates),
            0 <= i < before.snapshot.excerpts@.len(),
            0 <= s < before.buffers@.len(),
            before.buffers@[s].buffer.remote_id == before.snapshot.excerpts@[i].buffer_id,
        ensures
            ({
                let es = before.snapshot.excerpts@;
                let old = es[i];
                let new = self.snapshot.excerpts@[i];
                let state = before.buffers@[s];
                let update = updates[s];
                let k = es.take(i).filter(|e: Excerpt| e.buffer_id == old.buffer_id).len() as int;
                let edited = is_newer(update.buffer.version@, state.buffer.version@);
                let updated = update.buffer.non_text_state_update_count
                    > state.buffer.non_text_state_update_count;
                &&& self.snapshot.excerpts@.len() == es.len()
                &&& new.id == old.id
                &&& new.locator == old.locator
                &&& new.buffer_id == old.buffer_id
                &&& new.has_trailing_newline == old.has_trailing_newline
                &&& edited ==> new.buffer == update.buffer && new.range
                    == update.excerpts@[k].range
                &&& !edited && updated ==> new.buffer == update.buffer && new.range == old.range
                &&& !edited && !updated ==> new == old
                &&& self.buffers@[s].buffer == if edited || updated {
                    update.buffer
                } else {
                    state.buffer
                }
                &&& self.buffers@[s].excerpts == state.excerpts
            }),
    {
        let es = before.snapshot.excerpts@;
        assert(es[i].wf());
        lemma_owner(es, before.buffers@, i, s);
        lemma_ordinal_counts(es.take(i), es[i].buffer_id);
    }

    /// Catching up tells whether any buffer was edited, changed otherwise, is dirty, has
    /// lost its file or is in conflict with it.
    pub proof fn lemma_caught_up_flags(&self, before: &MultiBuffer, updates: Seq<BufferUpdate>)
        requires
            updates.len() == before.buffers@.len(),
            self.has_synced(before, updates),
        ensures
            self.snapshot.is_dirty <==> exists|s: int|
                0 <= s < updates.len() && (#[trigger] updates[s]).buffer.is_dirty,
            self.snapshot.has_deleted_file <==> exists|s: int|
                0 <= s < updates.len() && (#[trigger] updates[s]).buffer.has_deleted_file,
            self.snapshot.has_conflict <==> exists|s: int|
                0 <= s < updates.len() && (#[trigger] updates[s]).buffer.has_conflict,
            self.snapshot.edit_count == before.snapshot.edit_count <==> forall|s: int|
                0 <= s < updates.len() ==> !is_newer(
                    (#[trigger] updates[s]).buffer.version@,
                    before.buffers@[s].buffer.version@,
                ),
            self.snapshot.non_text_state_update_count
                == before.snapshot.non_text_state_update_count <==> forall|s: int|
                0 <= s < updates.len() ==> (
                #[trigger] updates[s]).buffer.non_text_state_update_count
                    <= before.buffers@[s].buffer.non_text_state_update_count,
            self.snapshot.edit_count >= before.snapshot.edit_count,
            self.snapshot.non_text_state_update_count
                >= before.snapshot.non_text_state_update_count,
    {
        let states = before.buffers@;
        if self.snapshot.edit_count == before.snapshot.edit_count {
            assert forall|s: int| 0 <= s < updates.len() implies !is_newer(
                (#[trigger] updates[s]).buffer.version@,
                states[s].buffer.version@,
            ) by {
                assert(!is_edited(states[s], updates[s]));
            }
        }
        if self.snapshot.non_text_state_update_count
            == before.snapshot.non_text_state_update_count {
            assert forall|s: int| 0 <= s < updates.len() implies (
            #[trigger] updates[s]).buffer.non_text_state_update_count
                <= states[s].buffer.non_text_state_update_count by {
                assert(!is_updated(states[s], updates[s]));
            }
        }
        if some_edited(states, updates) {
            let s = choose|s: int|
                0 <= s < states.len() && is_edited(
                    #[trigger] states[s],
                    updates[s],
                );
            assert(is_newer(updates[s].buffer.version@, states[s].buffer.version@));
        }
        if some_updated(states, updates) {
            let s = choose|s: int|
                0 <= s < states.len() && is_updated(
                    #[trigger] states[s],
                    updates[s],
                );
            assert(updates[s].buffer.non_text_state_update_count
                > states[s].buffer.non_text_state_update_count);
        }
    }

    /// Subscribers are told of the edits of each excerpt of an edited buffer, each counted
    /// from where the excerpt started and starts, and of no others.
    pub proof fn lemma_caught_up_edits(
        &self,
        before: &MultiBuffer,
        updates: Seq<BufferUpdate>,
        edit: Edit,
    )
        requires
            before.wf(),
            self.has_synced(before, updates),
        ensures
            ({
                let es = before.snapshot.excerpts@;
                let new = self.snapshot.excerpts@;
                self.published@.last()@.contains(edit) <==> exists|i: int, k: int|
                    0 <= i < es.len() && #[trigger] is_told(
                        edits_within(es, before.buffers@, updates, i),
                        k,
                        excerpt_start(es, i),
                        excerpt_start(new, i),
                        edit,
                    )
            }),
    {
        let es = before.snapshot.excerpts@;
        lemma_synced_edits(es, before.buffers@, updates, es.len() as int, edit);
    }

    /// A multibuffer that is cleared shows nothing. Subscribers are told that all its text is
    /// gone, and the identifiers of all its excerpts are announced as removed, and no others.
    pub proof fn lemma_cleared(&self, before: &MultiBuffer, id: ExcerptId)
        requires
            self.has_cleared(before),
        ensures
            self.snapshot.bytes().len() == 0,
            self.buffers@.len() == 0,
            self.published@.last()@ == seq![
                Edit {
                    old: Range { start: 0, end: before.snapshot.bytes().len() as usize },
                    new: Range { start: 0, end: 0 },
                },
            ],
            self.events@.last() matches Event::ExcerptsRemoved { ids } && (ids@.contains(id)
                <==> exists|i: int|
                0 <= i < before.snapshot.excerpts@.len() && (
                #[trigger] before.snapshot.excerpts@[i]).id == id),
    {
        let es = before.snapshot.excerpts@;
        let ids = ids_of(es);
        if ids.contains(id) {
            let i = choose|i: int| 0 <= i < ids.len() && ids[i] == id;
            assert(es[i].id == id);
        }
        if exists|i: int| 0 <= i < es.len() && (#[trigger] es[i]).id == id {
            let i = choose|i: int| 0 <= i < es.len() && (#[trigger] es[i]).id == id;
            assert(ids[i] == id);
        }
    }

    /// Which edits those within an excerpt are: for an edited buffer, those that came with
    /// its update for the excerpt; for any other, none.
    pub proof fn lemma_edits_within(
        &self,
        updates: Seq<BufferUpdate>,
        i: int,
        s: int,
    )
        requires
            self.wf(),
            0 <= i < self.snapshot.excerpts@.len(),
            0 <= s < self.buffers@.len(),
            self.buffers@[s].buffer.remote_id == self.snapshot.excerpts@[i].buffer_id,
        ensures
            ({
                let es = self.snapshot.excerpts@;
                let k = es.take(i).filter(
                    |e: Excerpt| e.buffer_id == es[i].buffer_id,
                ).len() as int;
                edits_within(es, self.buffers@, updates, i) == if is_newer(
                    updates[s].buffer.version@,
                    self.buffers@[s].buffer.version@,
                ) {
                    updates[s].excerpts@[k].edits@
                } else {
                    seq![]
                }
            }),
    {
        let es = self.snapshot.excerpts@;
        assert(es[i].wf());
        lemma_owner(es, self.buffers@, i, s);
        lemma_ordinal_counts(es.take(i), es[i].buffer_id);
    }
}

proof fn lemma_synced_edits(
    es: Seq<Excerpt>,
    states: Seq<BufferState>,
    updates: Seq<BufferUpdate>,
    n: int,
    edit: Edit,
)
    requires
        0 <= n <= es.len(),
    ensures
        synced_edits(es, states, updates, n).contains(edit) <==> exists|i: int, k: int|
            0 <= i < n && #[trigger] is_told(
                edits_within(es, states, updates, i),
                k,
                excerpt_start(es, i),
                excerpt_start(synced(es, states, updates), i),
                edit,
            ),
    decreases n,
{
    let all = synced_edits(es, states, updates, n);
    if n > 0 {
        let before = synced_edits(es, states, updates, n - 1);
        lemma_synced_edits(es, states, updates, n - 1, edit);
        if all.contains(edit) {
            let a = choose|a: int| 0 <= a < all.len() && all[a] == edit;
            if a < before.len() {
                assert(before[a] == edit);
            } else {
                assert(is_told(
                    edits_within(es, states, updates, n - 1),
                    a - before.len(),
                    excerpt_start(es, n - 1),
                    excerpt_start(synced(es, states, updates), n - 1),
                    edit,
                ));
            }
        }
        if exists|i: int, k: int|
            0 <= i < n && #[trigger] is_told(
                edits_within(es, states, updates, i),
                k,
                excerpt_start(es, i),
                excerpt_start(synced(es, states, updates), i),
                edit,
            ) {
            let (i, k) = choose|i: int, k: int|
                0 <= i < n && #[trigger] is_told(
                edits_within(es, states, updates, i),
                k,
                excerpt_start(es, i),
                excerpt_start(synced(es, states, updates), i),
                edit,
            );
            if i < n - 1 {
                let a = choose|a: int| 0 <= a < before.len() && before[a] == edit;
                assert(all[a] == edit);
            } else {
                assert(all[before.len() + k] == edit);
            }
        }
    }
}

} // verus!
