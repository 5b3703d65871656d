//! Making multibuffers, and reading their state.

use std::sync::Arc;
use vstd::prelude::*;

use crate::buffer::{
    max_text_anchor, min_text_anchor, BufferId, BufferSnapshot, Capability, TextAnchor,
};
use crate::excerpt::{lemma_excerpts_text_step, Excerpt, ExcerptId, ExcerptRange};
use crate::history::{models, History, Transaction, TransactionId, GROUP_INTERVAL};
use crate::locator::Locator;
use crate::multi_buffer::insert::{numbered, room_for, showable, spliced};
use crate::multi_buffer::transactions::is_known;
use crate::multi_buffer::{
    buffers_wf, digits_of, has_state, state_fits, state_of, BufferState, Event, MultiBuffer,
};
use crate::position::ToOffset;
use crate::shared::share;
use crate::snapshot::indents::all_set;
use crate::snapshot::{ExcerptIdMapping, MultiBufferSnapshot};
use crate::text::{Bias, MAX_TEXT_LEN};

verus! {

/// What happened to a buffer.
#[derive(Clone, Copy, Debug, PartialEq, Eq, Structural)]
pub enum BufferEvent {
    Operation,
    Edited,
    DirtyChanged,
    Saved,
    FileHandleChanged,
    Reloaded,
    ReloadNeeded,
    LanguageChanged,
    Reparsed,
    DiagnosticsUpdated,
    CapabilityChanged,
    Closed,
    Discarded,
}

/// The event of a multibuffer that an event of one of its buffers comes to.
pub open spec fn event_for(event: BufferEvent, buffer_id: BufferId) -> Option<Event> {
    match event {
        BufferEvent::Operation => None,
        BufferEvent::Edited => Some(
            Event::Edited { singleton_buffer_edited: true, edited_buffer: Some(buffer_id) },
        ),
        BufferEvent::DirtyChanged => Some(Event::DirtyChanged),
        BufferEvent::Saved => Some(Event::Saved),
        BufferEvent::FileHandleChanged => Some(Event::FileHandleChanged),
        BufferEvent::Reloaded => Some(Event::Reloaded),
        BufferEvent::ReloadNeeded => Some(Event::ReloadNeeded),
        BufferEvent::LanguageChanged => Some(Event::LanguageChanged(buffer_id)),
        BufferEvent::Reparsed => Some(Event::Reparsed(buffer_id)),
        BufferEvent::DiagnosticsUpdated => Some(Event::DiagnosticsUpdated),
        BufferEvent::CapabilityChanged => Some(Event::CapabilityChanged),
        BufferEvent::Closed => Some(Event::Closed),
        BufferEvent::Discarded => Some(Event::Discarded),
    }
}

/// An event of a buffer is announced unless it only passes an operation on. What names a
/// buffer names the buffer that it comes from, and only an edit is announced as one.
pub proof fn lemma_event_for(event: BufferEvent, buffer_id: BufferId)
    ensures
        event_for(event, buffer_id) is None <==> event is Operation,
        event is Edited <==> event_for(event, buffer_id) == Some(
            Event::Edited { singleton_buffer_edited: true, edited_buffer: Some(buffer_id) },
        ),
        event is LanguageChanged <==> event_for(event, buffer_id) == Some(
            Event::LanguageChanged(buffer_id),
        ),
        event is Reparsed <==> event_for(event, buffer_id) == Some(Event::Reparsed(buffer_id)),
        event is DirtyChanged <==> event_for(event, buffer_id) == Some(Event::DirtyChanged),
        event is Saved <==> event_for(event, buffer_id) == Some(Event::Saved),
        event is FileHandleChanged <==> event_for(event, buffer_id) == Some(
            Event::FileHandleChanged,
        ),
        event is Reloaded <==> event_for(event, buffer_id) == Some(Event::Reloaded),
        event is ReloadNeeded <==> event_for(event, buffer_id) == Some(Event::ReloadNeeded),
        event is DiagnosticsUpdated <==> event_for(event, buffer_id) == Some(
            Event::DiagnosticsUpdated,
        ),
        event is CapabilityChanged <==> event_for(event, buffer_id) == Some(
            Event::CapabilityChanged,
        ),
        event is Closed <==> event_for(event, buffer_id) == Some(Event::Closed),
        event is Discarded <==> event_for(event, buffer_id) == Some(Event::Discarded),
{
}

/// Whether two snapshots hold the same.
pub open spec fn same_snapshot(a: MultiBufferSnapshot, b: MultiBufferSnapshot) -> bool {
    &&& a.excerpts@ == b.excerpts@
    &&& a.excerpt_ids@ == b.excerpt_ids@
    &&& a.same_but_excerpts(&b)
}

/// Whether two lists of states hold the same.
pub open spec fn same_states(a: Seq<BufferState>, b: Seq<BufferState>) -> bool {
    &&& a.len() == b.len()
    &&& forall|s: int|
        0 <= s < a.len() ==> (#[trigger] a[s]).buffer == b[s].buffer && a[s].excerpts@
            == b[s].excerpts@
}

impl Clone for MultiBufferSnapshot {
    fn clone(&self) -> (r: Self)
        ensures
            same_snapshot(r, *self),
            self.wf() ==> r.wf(),
    {
        let mut excerpts: Vec<Excerpt> = Vec::new();
        let mut i: usize = 0;
        while i < self.excerpts.len()
            invariant
                i <= self.excerpts@.len(),
                excerpts@ == self.excerpts@.take(i as int),
            decreases self.excerpts@.len() - i,
        {
            excerpts.push(self.excerpts[i].clone());
            assert(excerpts@ =~= self.excerpts@.take(i + 1));
            i = i + 1;
        }
        let mut excerpt_ids: Vec<ExcerptIdMapping> = Vec::new();
        let mut k: usize = 0;
        while k < self.excerpt_ids.len()
            invariant
                k <= self.excerpt_ids@.len(),
                excerpt_ids@ == self.excerpt_ids@.take(k as int),
            decreases self.excerpt_ids@.len() - k,
        {
            let entry = &self.excerpt_ids[k];
            excerpt_ids.push(ExcerptIdMapping { id: entry.id, locator: entry.locator.clone() });
            assert(excerpt_ids@ =~= self.excerpt_ids@.take(k + 1));
            k = k + 1;
        }
        assert(self.excerpts@.take(self.excerpts@.len() as int) =~= self.excerpts@);
        assert(self.excerpt_ids@.take(self.excerpt_ids@.len() as int) =~= self.excerpt_ids@);
        MultiBufferSnapshot {
            singleton: self.singleton,
            excerpts,
            excerpt_ids,
            trailing_excerpt_update_count: self.trailing_excerpt_update_count,
            non_text_state_update_count: self.non_text_state_update_count,
            edit_count: self.edit_count,
            is_dirty: self.is_dirty,
            has_deleted_file: self.has_deleted_file,
            has_conflict: self.has_conflict,
            show_headers: self.show_headers,
        }
    }
}

impl Default for MultiBufferSnapshot {
    fn default() -> (r: Self)
        ensures
            r.wf(),
            r.excerpts@.len() == 0,
            r.excerpt_ids@.len() == 0,
            r.bytes().len() == 0,
            !r.singleton,
            r.trailing_excerpt_update_count == 0,
            r.non_text_state_update_count == 0,
            r.edit_count == 0,
            !r.is_dirty,
            !r.has_deleted_file,
            !r.has_conflict,
            !r.show_headers,
    {
        MultiBufferSnapshot {
            singleton: false,
            excerpts: Vec::new(),
            excerpt_ids: Vec::new(),
            trailing_excerpt_update_count: 0,
            non_text_state_update_count: 0,
            edit_count: 0,
            is_dirty: false,
            has_deleted_file: false,
            has_conflict: false,
            show_headers: false,
        }
    }
}

fn copy_transactions(transactions: &Vec<Transaction>) -> (r: Vec<Transaction>)
    ensures
        models(r@) == models(transactions@),
{
    let mut r: Vec<Transaction> = Vec::new();
    let mut k: usize = 0;
    while k < transactions.len()
        invariant
            k <= transactions@.len(),
            models(r@) == models(transactions@).take(k as int),
        decreases transactions@.len() - k,
    {
        let transaction = &transactions[k];
        let mut buffer_transactions: Vec<(BufferId, TransactionId)> = Vec::new();
        let mut n: usize = 0;
        while n < transaction.buffer_transactions.len()
            invariant
                n <= transaction.buffer_transactions@.len(),
                buffer_transactions@ == transaction.buffer_transactions@.take(n as int),
            decreases transaction.buffer_transactions@.len() - n,
        {
            buffer_transactions.push(transaction.buffer_transactions[n]);
            assert(buffer_transactions@ =~= transaction.buffer_transactions@.take(n + 1));
            n = n + 1;
        }
        assert(transaction.buffer_transactions@.take(n as int)
            =~= transaction.buffer_transactions@);
        let copy = Transaction {
            id: transaction.id,
            buffer_transactions,
            first_edit_at: transaction.first_edit_at,
            last_edit_at: transaction.last_edit_at,
            suppress_grouping: transaction.suppress_grouping,
        };
        assert(copy@ == transaction@);
        let ghost before = r@;
        r.push(copy);
        assert(models(r@) =~= models(before).push(copy@));
        assert(models(r@) =~= models(transactions@).take(k + 1));
        k = k + 1;
    }
    assert(models(r@) =~= models(transactions@));
    r
}

impl Clone for History {
    fn clone(&self) -> (r: Self)
        ensures
            r.same_but_stacks(self),
            r.undo() == self.undo(),
            r.redo() == self.redo(),
    {
        History {
            next_transaction_id: self.next_transaction_id,
            undo_stack: copy_transactions(&self.undo_stack),
            redo_stack: copy_transactions(&self.redo_stack),
            transaction_depth: self.transaction_depth,
            group_interval: self.group_interval,
        }
    }
}

/// The stretch that shows all of a buffer.
pub open spec fn whole_buffer() -> ExcerptRange<TextAnchor> {
    ExcerptRange {
        context: std::ops::Range { start: min_text_anchor(), end: max_text_anchor() },
        primary: None,
    }
}

impl MultiBuffer {
    /// Whether a multibuffer holds nothing yet.
    pub open spec fn is_new(&self, capability: Capability, show_headers: bool) -> bool {
        &&& self.snapshot.excerpts@.len() == 0
        &&& self.snapshot.excerpt_ids@.len() == 0
        &&& self.snapshot.trailing_excerpt_update_count == 0
        &&& self.snapshot.non_text_state_update_count == 0
        &&& self.snapshot.edit_count == 0
        &&& !self.snapshot.is_dirty
        &&& !self.snapshot.has_deleted_file
        &&& !self.snapshot.has_conflict
        &&& self.snapshot.show_headers == show_headers
        &&& self.buffers@.len() == 0
        &&& !self.singleton
        &&& self.history.undo().len() == 0
        &&& self.history.redo().len() == 0
        &&& self.history.transaction_depth == 0
        &&& self.history.next_transaction_id == (TransactionId { replica_id: 0, value: 0 })
        &&& self.history.group_interval == GROUP_INTERVAL
        &&& self.title is None
        &&& self.capability == capability
        &&& self.published@.len() == 0
        &&& self.events@.len() == 0
    }

    fn empty(capability: Capability, show_headers: bool) -> (r: Self)
        ensures
            r.wf(),
            r.is_new(capability, show_headers),
    {
        proof {
            reveal(buffers_wf);
        }
        let mut snapshot = MultiBufferSnapshot::default();
        snapshot.show_headers = show_headers;
        MultiBuffer {
            snapshot,
            buffers: Vec::new(),
            singleton: false,
            history: History::default(),
            title: None,
            capability,
            published: Vec::new(),
            events: Vec::new(),
        }
    }

    /// A multibuffer without excerpts.
    pub fn new(capability: Capability) -> (r: Self)
        ensures
            r.wf(),
            r.is_new(capability, true),
    {
        MultiBuffer::empty(capability, true)
    }

    /// A multibuffer without excerpts whose excerpts will have no headers.
    pub fn without_headers(capability: Capability) -> (r: Self)
        ensures
            r.wf(),
            r.is_new(capability, false),
    {
        MultiBuffer::empty(capability, false)
    }

    /// A multibuffer that shows the same, of which no one was told anything yet.
    pub fn clone(&self) -> (r: Self)
        ensures
            same_snapshot(r.snapshot, self.snapshot),
            same_states(r.buffers@, self.buffers@),
            r.singleton == self.singleton,
            r.capability == self.capability,
            r.title == self.title,
            r.history.same_but_stacks(&self.history),
            r.history.undo() == self.history.undo(),
            r.history.redo() == self.history.redo(),
            r.published@.len() == 0,
            r.events@.len() == 0,
            self.wf() ==> r.wf(),
    {
        let mut buffers: Vec<BufferState> = Vec::new();
        let mut s: usize = 0;
        while s < self.buffers.len()
            invariant
                s <= self.buffers@.len(),
                same_states(buffers@, self.buffers@.take(s as int)),
            decreases self.buffers@.len() - s,
        {
            let state = &self.buffers[s];
            let mut excerpts: Vec<Locator> = Vec::new();
            let mut k: usize = 0;
            while k < state.excerpts.len()
                invariant
                    k <= state.excerpts@.len(),
                    excerpts@ == state.excerpts@.take(k as int),
                decreases state.excerpts@.len() - k,
            {
                excerpts.push(state.excerpts[k].clone());
                assert(excerpts@ =~= state.excerpts@.take(k + 1));
                k = k + 1;
            }
            assert(state.excerpts@.take(k as int) =~= state.excerpts@);
            let ghost before = buffers@;
            buffers.push(BufferState { buffer: share(&state.buffer), excerpts });
            assert forall|t: int| 0 <= t < s + 1 implies (#[trigger] buffers@[t]).buffer
                == self.buffers@.take(s + 1)[t].buffer && buffers@[t].excerpts@
                == self.buffers@.take(s + 1)[t].excerpts@ by {
                if t < s {
                    assert(before[t].buffer == self.buffers@.take(s as int)[t].buffer);
                }
            }
            s = s + 1;
        }
        assert(self.buffers@.take(s as int) =~= self.buffers@);
        let snapshot = self.snapshot.clone();
        proof {
            if self.wf() {
                lemma_same_states(snapshot.excerpts@, self.buffers@, buffers@);
            }
        }
        MultiBuffer {
            snapshot,
            buffers,
            singleton: self.singleton,
            history: self.history.clone(),
            title: match &self.title {
                Some(title) => Some(title.clone()),
                None => None,
            },
            capability: self.capability,
            published: Vec::new(),
            events: Vec::new(),
        }
    }

    pub fn with_title(self, title: String) -> (r: Self)
        ensures
            r == (MultiBuffer { title: Some(title), ..self }),
    {
        let mut this = self;
        this.title = Some(title);
        this
    }

    pub fn set_title(&mut self, title: String)
        ensures
            *final(self) == (MultiBuffer { title: Some(title), ..*old(self) }),
    {
        self.title = Some(title);
    }

    /// The title, or else the name of the only buffer's file, or else a word for
    /// want of one.
    pub fn title(&self, file_name: &Option<String>) -> (r: String)
        ensures
            r@ == match self.title {
                Some(title) => title@,
                None => match *file_name {
                    Some(name) => if self.singleton {
                        name@
                    } else {
                        "untitled"@
                    },
                    None => "untitled"@,
                },
            },
    {
        if let Some(title) = &self.title {
            return title.clone();
        }
        if self.singleton {
            if let Some(name) = file_name {
                return name.clone();
            }
        }
        "untitled".to_owned()
    }

    /// The multibuffer, taken to show a single buffer.
    pub open spec fn as_single(self) -> MultiBuffer {
        MultiBuffer {
            singleton: true,
            snapshot: MultiBufferSnapshot { singleton: true, ..self.snapshot },
            ..self
        }
    }

    /// Whether `self` is a multibuffer that held nothing and was made to show all of
    /// one buffer.
    pub open spec fn shows_only(&self, buffer: Arc<BufferSnapshot>) -> bool {
        exists|empty: MultiBuffer, shown: MultiBuffer|
            {
                &&& empty.is_new(buffer.capability, true)
                &&& #[trigger] shown.shows_more(
                    &empty,
                    ExcerptId(usize::MAX),
                    buffer,
                    numbered(seq![], seq![whole_buffer()]),
                )
                &&& *self == shown.as_single()
            }
    }

    /// A multibuffer that shows all of one buffer.
    pub fn singleton(buffer: Arc<BufferSnapshot>) -> (r: Self)
        requires
            buffer.wf(),
            buffer.bytes().len() < MAX_TEXT_LEN,
        ensures
            r.wf(),
            r.singleton,
            r.snapshot.singleton,
            r.snapshot.excerpts@.len() == 1,
            r.snapshot.excerpts@[0].id == ExcerptId(1),
            r.snapshot.excerpts@[0].buffer == buffer,
            r.snapshot.excerpts@[0].range == whole_buffer(),
            r.snapshot.bytes() == buffer.bytes(),
            r.capability == buffer.capability,
            r.title is None,
            r.history.undo().len() == 0,
            r.history.redo().len() == 0,
            r.history.transaction_depth == 0,
            r.snapshot.show_headers,
            r.shows_only(buffer),
    {
        let mut this = MultiBuffer::new(buffer.capability);
        let mut ranges: Vec<ExcerptRange<TextAnchor>> = Vec::new();
        ranges.push(
            ExcerptRange { context: TextAnchor::min()..TextAnchor::max(), primary: None },
        );
        let ghost b: &BufferSnapshot = &buffer;
        let ghost before = this;
        proof {
            let with_ids = numbered(this.snapshot.excerpt_ids@, ranges@);
            assert(showable(with_ids[0].1, *buffer));
            assert(with_ids.drop_last() =~= Seq::empty());
            reveal_with_fuel(room_for, 2);
            assert(this.snapshot.bytes() =~= Seq::empty());
        }
        this.push_excerpts(share(&buffer), &ranges);
        proof {
            reveal(spliced);
            lemma_only_excerpt(before, this, buffer, ranges@);
        }
        let ghost shown = this;
        this.singleton = true;
        this.snapshot.singleton = true;
        proof {
            assert(ranges@ =~= seq![whole_buffer()]);
            assert(before.snapshot.excerpt_ids@ =~= seq![]);
            assert(this == shown.as_single());
        }
        this
    }

    pub fn is_singleton(&self) -> (r: bool)
        ensures
            r == self.singleton,
    {
        self.singleton
    }

    /// A copy of the contents as of the last synchronization.
    pub fn snapshot(&self) -> (r: MultiBufferSnapshot)
        ensures
            same_snapshot(r, self.snapshot),
            self.wf() ==> r.wf(),
    {
        self.snapshot.clone()
    }

    /// The contents as of the last synchronization.
    pub fn read(&self) -> (r: &MultiBufferSnapshot)
        ensures
            *r == self.snapshot,
    {
        &self.snapshot
    }

    pub fn is_dirty(&self) -> (r: bool)
        ensures
            r == self.snapshot.is_dirty,
    {
        self.snapshot.is_dirty()
    }

    pub fn has_deleted_file(&self) -> (r: bool)
        ensures
            r == self.snapshot.has_deleted_file,
    {
        self.snapshot.has_deleted_file()
    }

    pub fn has_conflict(&self) -> (r: bool)
        ensures
            r == self.snapshot.has_conflict,
    {
        self.snapshot.has_conflict()
    }

    pub fn len(&self) -> (r: usize)
        requires
            self.wf(),
        ensures
            r == self.snapshot.bytes().len(),
    {
        self.snapshot.len()
    }

    /// Whether there is any text.
    pub fn is_empty(&self) -> (r: bool)
        requires
            self.wf(),
        ensures
            r == (self.snapshot.bytes().len() != 0),
    {
        self.len() != 0
    }

    /// The contents of a buffer, where the multibuffer knows it.
    pub fn buffer(&self, buffer_id: BufferId) -> (r: Option<&BufferSnapshot>)
        ensures
            match r {
                Some(buffer) => exists|s: int|
                    0 <= s < self.buffers@.len() && *(#[trigger] self.buffers@[s]).buffer
                        == *buffer && buffer.remote_id == buffer_id,
                None => !is_known(self.buffers@, buffer_id),
            },
    {
        match self.buffer_state_index(buffer_id) {
            Some(s) => {
                let state = &self.buffers[s];
                assert(self.buffers@[s as int].buffer.remote_id == buffer_id);
                Some(&state.buffer)
            },
            None => None,
        }
    }

    /// The buffer that is shown at a position, and a position in it, before text
    /// that is inserted there.
    pub fn text_anchor_for_position<T: ToOffset>(&self, position: T) -> (r: Option<
        (BufferId, TextAnchor),
    >)
        requires
            self.wf(),
            position.is_position(self.snapshot),
        ensures
            ({
                let anchor = self.snapshot.anchor_at_offset(
                    position.offset(self.snapshot) as usize,
                    Bias::Left,
                );
                r == match anchor.buffer_id {
                    Some(buffer_id) => if is_known(self.buffers@, buffer_id) {
                        Some((buffer_id, anchor.text_anchor))
                    } else {
                        None
                    },
                    None => None,
                }
            }),
    {
        let anchor = self.snapshot.anchor_before(position);
        match anchor.buffer_id {
            Some(buffer_id) => {
                if self.buffer_state_index(buffer_id).is_some() {
                    Some((buffer_id, anchor.text_anchor))
                } else {
                    None
                }
            },
            None => None,
        }
    }

    /// Takes note of what happened to a buffer, whose capability is now this.
    pub fn on_buffer_event(
        &mut self,
        buffer_id: BufferId,
        event: BufferEvent,
        capability: Capability,
    )
        ensures
            *final(self) == (MultiBuffer {
                capability: if event is CapabilityChanged {
                    capability
                } else {
                    old(self).capability
                },
                events: final(self).events,
                ..*old(self)
            }),
            final(self).events@ == match event_for(event, buffer_id) {
                Some(event) => old(self).events@.push(event),
                None => old(self).events@,
            },
    {
        let event = match event {
            BufferEvent::Operation => {
                return ;
            },
            BufferEvent::Edited => Event::Edited {
                singleton_buffer_edited: true,
                edited_buffer: Some(buffer_id),
            },
            BufferEvent::DirtyChanged => Event::DirtyChanged,
            BufferEvent::Saved => Event::Saved,
            BufferEvent::FileHandleChanged => Event::FileHandleChanged,
            BufferEvent::Reloaded => Event::Reloaded,
            BufferEvent::ReloadNeeded => Event::ReloadNeeded,
            BufferEvent::LanguageChanged => Event::LanguageChanged(buffer_id),
            BufferEvent::Reparsed => Event::Reparsed(buffer_id),
            BufferEvent::DiagnosticsUpdated => Event::DiagnosticsUpdated,
            BufferEvent::CapabilityChanged => {
                self.capability = capability;
                Event::CapabilityChanged
            },
            BufferEvent::Closed => Event::Closed,
            BufferEvent::Discarded => Event::Discarded,
        };
        self.events.push(event);
    }

    /// Whether every buffer asks that previews of it are kept.
    pub fn preserve_preview(&self, preserved: &Vec<bool>) -> (r: bool)
        requires
            preserved@.len() == self.buffers@.len(),
        ensures
            r == forall|s: int| 0 <= s < preserved@.len() ==> #[trigger] preserved@[s],
    {
        all_set(preserved)
    }
}

/// States that hold the same fit the same excerpts.
proof fn lemma_same_states(es: Seq<Excerpt>, a: Seq<BufferState>, b: Seq<BufferState>)
    requires
        buffers_wf(es, a),
        same_states(b, a),
    ensures
        buffers_wf(es, b),
{
    reveal(buffers_wf);
    assert forall|s: int| 0 <= s < b.len() implies state_fits(es, #[trigger] b[s]) by {
        assert(state_fits(es, a[s]));
        assert(digits_of(b[s].excerpts@) =~= digits_of(a[s].excerpts@));
    }
    assert forall|i: int| 0 <= i < es.len() implies has_state(b, #[trigger] es[i]) by {
        assert(has_state(a, es[i]));
        let s = choose|s: int| state_of(a, s, es[i]);
        assert(b[s].buffer == a[s].buffer);
        assert(state_of(b, s, es[i]));
    }
    assert forall|s: int, t: int| 0 <= s < t < b.len() implies (#[trigger] b[s]).buffer.remote_id
        != (#[trigger] b[t]).buffer.remote_id by {
        assert(a[s].buffer.remote_id != a[t].buffer.remote_id);
    }
}

/// A multibuffer into which nothing but one whole buffer was put shows that buffer.
proof fn lemma_only_excerpt(
    before: MultiBuffer,
    after: MultiBuffer,
    buffer: Arc<BufferSnapshot>,
    ranges: Seq<ExcerptRange<TextAnchor>>,
)
    requires
        before.wf(),
        before.snapshot.excerpts@.len() == 0,
        before.snapshot.excerpt_ids@.len() == 0,
        after.wf(),
        buffer.wf(),
        ranges.len() == 1,
        ranges[0] == (ExcerptRange {
            context: std::ops::Range { start: min_text_anchor(), end: max_text_anchor() },
            primary: None,
        }),
        after.shows_more(
            &before,
            ExcerptId(usize::MAX),
            buffer,
            numbered(before.snapshot.excerpt_ids@, ranges),
        ),
    ensures
        after.snapshot.excerpts@.len() == 1,
        after.snapshot.excerpts@[0].id == ExcerptId(1),
        after.snapshot.excerpts@[0].buffer == buffer,
        after.snapshot.excerpts@[0].range == ranges[0],
        after.snapshot.excerpts@[0].start() == 0,
        after.snapshot.excerpts@[0].end() == buffer.bytes().len(),
        after.snapshot.bytes() == buffer.bytes(),
{
    reveal(spliced);
    let es = after.snapshot.excerpts@;
    let p = before.insertion_index(ExcerptId(usize::MAX));
    assert(p == 0);
    let news = es.subrange(p, p + 1);
    assert(es =~= news);
    assert(es[0] == news[0]);
    assert(es.take(1) =~= es);
    assert(es.take(0) =~= Seq::empty());
    lemma_excerpts_text_step(es, 0);
    assert(es[0].text() =~= buffer.bytes());
}

} // verus!
