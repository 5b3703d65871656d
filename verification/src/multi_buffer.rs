//! Excerpts of several buffers, edited as one text.

use std::ops::Range;
use std::sync::Arc;
use vstd::prelude::*;

use crate::buffer::{BufferId, BufferSnapshot, Capability, TextAnchor};
use crate::excerpt::{Excerpt, ExcerptId, ExcerptRange};
use crate::history::{History, TransactionId};
use crate::locator::Locator;
use crate::snapshot::MultiBufferSnapshot;

pub mod by_buffer;
pub mod check;
pub mod edit;
pub mod edit_laws;
pub mod edited_ranges;
pub mod empty_line;
pub mod expand;
pub mod expand_laws;
pub mod insert;
pub mod insert_laws;
pub mod mutation;
pub mod named;
pub mod plan;
pub mod push_laws;
pub mod push_many;
pub mod queries;
pub mod query_laws;
pub mod random;
pub mod random_laws;
pub mod remove;
pub mod removed;
pub mod room;
pub mod samples;
pub mod selection_laws;
pub mod selections;
pub mod state;
pub mod sync;
pub mod sync_laws;
pub mod transaction_laws;
pub mod transactions;
pub mod waiting;

verus! {

/// A stretch of text that was replaced: where it was, and where the new text
/// is.
#[derive(Debug, PartialEq, Eq)]
pub struct Edit {
    pub old: Range<usize>,
    pub new: Range<usize>,
}

/// What happened to a multibuffer.
#[derive(Debug, PartialEq, Eq)]
pub enum Event {
    ExcerptsAdded {
        buffer: BufferId,
        predecessor: ExcerptId,
        excerpts: Vec<(ExcerptId, ExcerptRange<TextAnchor>)>,
    },
    ExcerptsRemoved {
        ids: Vec<ExcerptId>,
    },
    ExcerptsExpanded {
        ids: Vec<ExcerptId>,
    },
    ExcerptsEdited {
        ids: Vec<ExcerptId>,
    },
    Edited {
        singleton_buffer_edited: bool,
        edited_buffer: Option<BufferId>,
    },
    TransactionUndone {
        transaction_id: TransactionId,
    },
    Reloaded,
    ReloadNeeded,
    LanguageChanged(BufferId),
    CapabilityChanged,
    Reparsed(BufferId),
    Saved,
    FileHandleChanged,
    Closed,
    Discarded,
    DirtyChanged,
    DiagnosticsUpdated,
}

/// What a multibuffer knows of one of its buffers.
#[derive(Debug)]
pub struct BufferState {
    /// The buffer as of the last synchronization.
    pub buffer: Arc<BufferSnapshot>,
    /// The places of its excerpts, in order.
    pub excerpts: Vec<Locator>,
}

/// Excerpts of several buffers, edited as one text.
#[derive(Debug)]
pub struct MultiBuffer {
    pub snapshot: MultiBufferSnapshot,
    /// The buffers that have excerpts.
    pub buffers: Vec<BufferState>,
    /// Whether the multibuffer shows a single buffer, and all of it.
    pub singleton: bool,
    pub history: History,
    pub title: Option<String>,
    pub capability: Capability,
    /// Edits of the text that subscribers are still to be told of, one list
    /// for each change.
    pub published: Vec<Vec<Edit>>,
    /// Events that are still to be emitted.
    pub events: Vec<Event>,
}

/// Whether `new` is `old` with the old range of each edit replaced by what
/// stands in its new range.
pub open spec fn patched(old: Seq<u8>, new: Seq<u8>, edits: Seq<Edit>) -> bool
    decreases edits.len(),
{
    if edits.len() == 0 {
        old == new
    } else {
        let last = edits.last();
        &&& last.old.start <= last.old.end <= old.len()
        &&& last.new.start <= last.new.end <= new.len()
        &&& old.skip(last.old.end as int) == new.skip(last.new.end as int)
        &&& patched(
            old.take(last.old.start as int),
            new.take(last.new.start as int),
            edits.drop_last(),
        )
    }
}

/// One edit replaces one stretch.
pub proof fn lemma_patched_one(old: Seq<u8>, new: Seq<u8>, edit: Edit)
    requires
        edit.old.start <= edit.old.end <= old.len(),
        edit.new.start <= edit.new.end <= new.len(),
        old.take(edit.old.start as int) == new.take(edit.new.start as int),
        old.skip(edit.old.end as int) == new.skip(edit.new.end as int),
    ensures
        patched(old, new, seq![edit]),
{
    assert(seq![edit].drop_last() =~= Seq::<Edit>::empty());
    assert(seq![edit].last() == edit);
    assert(patched(
        old.take(edit.old.start as int),
        new.take(edit.new.start as int),
        Seq::<Edit>::empty(),
    ));
}

/// The places of the excerpts of one buffer.
pub open spec fn locators_of(es: Seq<Excerpt>, buffer_id: BufferId) -> Seq<Seq<u64>>
    decreases es.len(),
{
    if es.len() == 0 {
        seq![]
    } else if es.last().buffer_id == buffer_id {
        locators_of(es.drop_last(), buffer_id).push(es.last().locator@)
    } else {
        locators_of(es.drop_last(), buffer_id)
    }
}

pub proof fn lemma_locators_concat(a: Seq<Excerpt>, b: Seq<Excerpt>, buffer_id: BufferId)
    ensures
        locators_of(a + b, buffer_id) == locators_of(a, buffer_id) + locators_of(b, buffer_id),
    decreases b.len(),
{
    if b.len() == 0 {
        assert(a + b =~= a);
        assert(locators_of(a, buffer_id) + locators_of(b, buffer_id) =~= locators_of(
            a,
            buffer_id,
        ));
    } else {
        lemma_locators_concat(a, b.drop_last(), buffer_id);
        assert((a + b).drop_last() =~= a + b.drop_last());
        assert((a + b).last() == b.last());
        assert(locators_of(a + b, buffer_id) =~= locators_of(a, buffer_id) + locators_of(
            b,
            buffer_id,
        ));
    }
}

/// The places depend on the buffers and the places of the excerpts alone.
pub proof fn lemma_locators_same(a: Seq<Excerpt>, b: Seq<Excerpt>, buffer_id: BufferId)
    requires
        a.len() == b.len(),
        forall|i: int|
            0 <= i < a.len() ==> (#[trigger] a[i]).buffer_id == b[i].buffer_id && a[i].locator@
                == b[i].locator@,
    ensures
        locators_of(a, buffer_id) == locators_of(b, buffer_id),
    decreases a.len(),
{
    if a.len() > 0 {
        lemma_locators_same(a.drop_last(), b.drop_last(), buffer_id);
        assert(a.last().buffer_id == b.last().buffer_id);
    }
}

/// The locators of a buffer, as digits.
pub open spec fn digits_of(locators: Seq<Locator>) -> Seq<Seq<u64>> {
    locators.map_values(|locator: Locator| locator@)
}

/// Whether the `s`-th state is that of an excerpt's buffer.
pub open spec fn state_of(states: Seq<BufferState>, s: int, e: Excerpt) -> bool {
    0 <= s < states.len() && states[s].buffer == e.buffer
}

/// Whether no two states are of one buffer.
pub open spec fn states_distinct(states: Seq<BufferState>) -> bool {
    forall|a: int, b: int|
        0 <= a < b < states.len() ==> (#[trigger] states[a]).buffer.remote_id != (
        #[trigger] states[b]).buffer.remote_id
}

/// Whether a state holds the places of its buffer's excerpts.
pub open spec fn state_fits(es: Seq<Excerpt>, state: BufferState) -> bool {
    &&& state.buffer.wf()
    &&& state.excerpts@.len() > 0
    &&& digits_of(state.excerpts@) == locators_of(es, state.buffer.remote_id)
}

/// Whether the buffer of an excerpt has a state, with the snapshot that the
/// excerpt shows.
pub open spec fn has_state(states: Seq<BufferState>, e: Excerpt) -> bool {
    exists|s: int| state_of(states, s, e)
}

/// Whether the states of the buffers fit the excerpts: each buffer that has
/// excerpts has one state, with the snapshot that its excerpts show and their
/// places.
#[verifier::opaque]
pub open spec fn buffers_wf(es: Seq<Excerpt>, states: Seq<BufferState>) -> bool {
    &&& states_distinct(states)
    &&& forall|s: int| 0 <= s < states.len() ==> state_fits(es, #[trigger] states[s])
    &&& forall|i: int| 0 <= i < es.len() ==> has_state(states, #[trigger] es[i])
}

impl MultiBuffer {
    pub open spec fn wf(&self) -> bool {
        &&& self.snapshot.wf()
        &&& self.singleton == self.snapshot.singleton
        &&& buffers_wf(self.snapshot.excerpts@, self.buffers@)
    }

    /// Whether nothing but the snapshot, the states of the buffers and what is
    /// to be published and emitted differs.
    pub open spec fn same_but_excerpts(&self, other: &MultiBuffer) -> bool {
        &&& self.singleton == other.singleton
        &&& self.history == other.history
        &&& self.title == other.title
        &&& self.capability == other.capability
    }

    /// Whether a list of edits was published on top of those before.
    pub open spec fn published_on(&self, before: &MultiBuffer, edits: Seq<Edit>) -> bool {
        &&& self.published@.len() == before.published@.len() + 1
        &&& self.published@.drop_last() == before.published@
        &&& self.published@.last()@ == edits
    }
}

} // verus!
