//! Changes to which excerpts are shown.

use std::sync::Arc;
use vstd::prelude::*;

use crate::buffer::{BufferSnapshot, ToBufferOffset};
use crate::excerpt::{
    excerpt_start, excerpts_text, lemma_excerpts_text_split, lemma_excerpts_text_step, Excerpt,
    ExcerptId, ExcerptRange, ExpandExcerptDirection,
};
use crate::locator::{digits_before, lemma_order_strict};
use crate::multi_buffer::expand::{expand_excerpt, expanded};
use crate::multi_buffer::insert::{
    is_new_excerpt, lemma_room_grows, new_ids, next_id, numbered, place_at, place_before, room_for,
    showable, spliced,
};
use crate::multi_buffer::named::lemma_named_excerpts;
use crate::multi_buffer::push_many::lemma_has_locator;
use crate::multi_buffer::removed::{kept_of, lemma_removed_excerpts, names_in_order};
use crate::multi_buffer::{
    buffers_wf, digits_of, state_fits, states_distinct, BufferState, MultiBuffer,
};
use crate::shared::share;
use crate::snapshot::ids::lemma_locator_index;
use crate::snapshot::excerpts_wf;
use crate::text::{lemma_summary_sound, Bias, MAX_TEXT_LEN};

verus! {

/// A change to which excerpts are shown.
#[derive(Debug)]
pub enum Mutation {
    /// No excerpt stays.
    Clear,
    /// Excerpts grow by rows at both ends.
    Expand { ids: Vec<ExcerptId>, line_count: u32 },
    /// Ranges of a buffer are shown behind all excerpts.
    Insert { buffer: Arc<BufferSnapshot>, ranges: Vec<ExcerptRange<usize>> },
    /// Excerpts go.
    Remove { ids: Vec<ExcerptId> },
}

/// Whether a multibuffer goes through states, change by change.
pub open spec fn goes_on(trace: Seq<MultiBuffer>, mutations: Seq<Mutation>) -> bool {
    &&& trace.len() == mutations.len() + 1
    &&& forall|c: int| 0 <= c < trace.len() ==> (#[trigger] trace[c]).wf()
    &&& forall|c: int|
        0 <= c < mutations.len() ==> trace[c + 1].has_applied(&trace[c], #[trigger] mutations[c])
}

/// Whether no excerpt shows a buffer.
pub open spec fn is_unseen(es: Seq<Excerpt>, buffer: BufferSnapshot) -> bool {
    forall|i: int| 0 <= i < es.len() ==> (#[trigger] es[i]).buffer_id != buffer.remote_id
}

/// Whether a buffer is known by these contents, if it is known at all.
pub open spec fn is_known_as(states: Seq<BufferState>, buffer: Arc<BufferSnapshot>) -> bool {
    forall|s: int|
        0 <= s < states.len() && (#[trigger] states[s]).buffer.remote_id == buffer.remote_id
            ==> states[s].buffer == buffer
}

/// A buffer that no excerpt shows is not known.
pub proof fn lemma_unseen(es: Seq<Excerpt>, states: Seq<BufferState>, buffer: Arc<BufferSnapshot>)
    requires
        buffers_wf(es, states),
        is_unseen(es, *buffer),
    ensures
        is_known_as(states, buffer),
{
    reveal(buffers_wf);
    assert forall|s: int| 0 <= s < states.len() implies (#[trigger] states[s]).buffer.remote_id
        != buffer.remote_id by {
        assert(state_fits(es, states[s]));
        assert(digits_of(states[s].excerpts@).len() > 0);
        let i = lemma_has_locator(es, states[s].buffer.remote_id);
    }
}

/// A buffer is known by the contents that are known of it.
pub proof fn lemma_known(es: Seq<Excerpt>, states: Seq<BufferState>, s: int)
    requires
        buffers_wf(es, states),
        0 <= s < states.len(),
    ensures
        is_known_as(states, states[s].buffer),
        states[s].buffer.wf(),
{
    reveal(buffers_wf);
    assert(states_distinct(states));
    assert(state_fits(es, states[s]));
}

/// Whether an identifier is one of several.
pub(crate) fn has_id(ids: &Vec<ExcerptId>, id: ExcerptId) -> (r: bool)
    ensures
        r == ids@.contains(id),
{
    let mut k: usize = 0;
    while k < ids.len()
        invariant
            k <= ids@.len(),
            forall|j: int| 0 <= j < k ==> #[trigger] ids@[j] != id,
        decreases ids@.len() - k,
    {
        if ids[k].0 == id.0 {
            assert(ids@[k as int] == id);
            return true;
        }
        k = k + 1;
    }
    false
}

/// What is kept was there before.
proof fn lemma_kept_unseen(es: Seq<Excerpt>, ids: Seq<ExcerptId>, buffer: BufferSnapshot)
    requires
        is_unseen(es, buffer),
    ensures
        is_unseen(kept_of(es, ids), buffer),
    decreases es.len(),
{
    if es.len() > 0 {
        lemma_kept_unseen(es.drop_last(), ids, buffer);
    }
}

/// New excerpts show their own buffer only.
proof fn lemma_inserted_unseen<O: ToBufferOffset>(
    before: MultiBuffer,
    after: MultiBuffer,
    buffer: Arc<BufferSnapshot>,
    ranges: Seq<(ExcerptId, ExcerptRange<O>)>,
    other: BufferSnapshot,
)
    requires
        before.wf(),
        after.shows_more(&before, ExcerptId(usize::MAX), buffer, ranges),
        is_unseen(before.snapshot.excerpts@, other),
        buffer.remote_id != other.remote_id,
    ensures
        is_unseen(after.snapshot.excerpts@, other),
{
    let es = before.snapshot.excerpts@;
    let all = after.snapshot.excerpts@;
    let n = ranges.len() as int;
    if n > 0 {
        let p = before.insertion_index(ExcerptId(usize::MAX));
        lemma_locator_index(es, before.snapshot.locator_for(ExcerptId(usize::MAX)), Bias::Right, 0);
        let news = all.subrange(p, p + n);
        reveal(spliced);
        assert forall|i: int| 0 <= i < all.len() implies (#[trigger] all[i]).buffer_id
            != other.remote_id by {
            if i < p {
                assert(all[i].buffer_id == es[i].buffer_id);
            } else if i < p + n {
                assert(all[i] == news[i - p]);
                assert(is_new_excerpt(
                    news[i - p],
                    i - p,
                    ranges,
                    buffer,
                    place_before(es, p),
                    place_at(es, p),
                    p < es.len(),
                ));
            } else {
                assert(all[i] == es[i - n]);
            }
        }
    }
}

fn copy_ids(ids: &Vec<ExcerptId>) -> (r: Vec<ExcerptId>)
    ensures
        r@ == ids@,
{
    let mut r: Vec<ExcerptId> = Vec::new();
    let mut k: usize = 0;
    while k < ids.len()
        invariant
            k <= ids@.len(),
            r@ == ids@.take(k as int),
        decreases ids@.len() - k,
    {
        r.push(ids[k]);
        assert(r@ =~= ids@.take(k + 1));
        k = k + 1;
    }
    assert(r@ =~= ids@);
    r
}

/// How much room ranges of a buffer take, unless it is more than a text can hold.
fn room_needed(ranges: &Vec<ExcerptRange<usize>>, buffer: &Arc<BufferSnapshot>) -> (r: Option<
    usize,
>)
    requires
        forall|k: int| 0 <= k < ranges@.len() ==> showable(#[trigger] ranges@[k], **buffer),
        buffer.bytes().len() <= MAX_TEXT_LEN,
    ensures
        forall|ids|
            match r {
                Some(room) => room <= MAX_TEXT_LEN && room == room_for(
                    #[trigger] numbered(ids, ranges@),
                    **buffer,
                ),
                None => room_for(numbered(ids, ranges@), **buffer) > MAX_TEXT_LEN,
            },
{
    let mut room: usize = 0;
    let mut k: usize = 0;
    proof {
        assert forall|ids| room_for((#[trigger] numbered(ids, ranges@)).take(0), **buffer) == 0 by {
            assert(numbered(ids, ranges@).take(0) =~= seq![]);
        }
    }
    while k < ranges.len()
        invariant
            k <= ranges@.len(),
            forall|k: int| 0 <= k < ranges@.len() ==> showable(#[trigger] ranges@[k], **buffer),
            buffer.bytes().len() <= MAX_TEXT_LEN,
            room <= MAX_TEXT_LEN,
            forall|ids|
                room_for((#[trigger] numbered(ids, ranges@)).take(k as int), **buffer) == room,
        decreases ranges@.len() - k,
    {
        let context = &ranges[k].context;
        assert(showable(ranges@[k as int], **buffer));
        let len: usize = context.end - context.start + 1;
        proof {
            assert forall|ids| ({
                let numbers = #[trigger] numbered(ids, ranges@);
                &&& room_for(numbers.take(k + 1), **buffer) == room + len
                &&& room + len <= room_for(numbers, **buffer)
            }) by {
                let numbers = numbered(ids, ranges@);
                assert forall|j: int| 0 <= j < numbers.len() implies showable(
                    (#[trigger] numbers[j]).1,
                    **buffer,
                ) by {
                    assert(showable(ranges@[j], **buffer));
                }
                lemma_room_grows(numbers, *buffer, k as int);
                lemma_room_grows(numbers, *buffer, k + 1);
                assert(room_for(numbers.take(k as int), **buffer) == room);
            }
        }
        if room + len > MAX_TEXT_LEN {
            return None;
        }
        room = room + len;
        k = k + 1;
    }
    proof {
        assert forall|ids| room_for(#[trigger] numbered(ids, ranges@), **buffer) == room by {
            assert(numbered(ids, ranges@).take(ranges@.len() as int) =~= numbered(ids, ranges@));
        }
    }
    Some(room)
}

impl MultiBuffer {
    /// Whether a change concerns excerpts that are there, or shows what can be shown.
    pub open spec fn makes_sense(&self, mutation: Mutation) -> bool {
        match mutation {
            Mutation::Clear => true,
            Mutation::Expand { ids, line_count } => {
                &&& forall|k: int|
                    0 <= k < ids@.len() ==> self.snapshot.has_excerpt(#[trigger] ids@[k])
                &&& line_count <= u32::MAX - MAX_TEXT_LEN
            },
            Mutation::Insert { buffer, ranges } => {
                &&& buffer.wf()
                &&& is_known_as(self.buffers@, buffer)
                &&& forall|k: int|
                    0 <= k < ranges@.len() ==> showable(#[trigger] ranges@[k], *buffer)
            },
            Mutation::Remove { ids } => names_in_order(self.snapshot, ids@),
        }
    }

    /// Whether counts and text stay within bounds.
    pub open spec fn fits(&self, mutation: Mutation) -> bool {
        match mutation {
            Mutation::Clear => self.snapshot.trailing_excerpt_update_count < usize::MAX,
            Mutation::Expand { ids, line_count } => line_count == 0 || excerpts_text(
                self.snapshot.expansion(ids@, line_count as int, line_count as int),
            ).len() <= MAX_TEXT_LEN,
            Mutation::Insert { buffer, ranges } => {
                &&& self.snapshot.bytes().len() + room_for(
                    numbered(self.snapshot.excerpt_ids@, ranges@),
                    *buffer,
                ) <= MAX_TEXT_LEN
                &&& next_id(self.snapshot.excerpt_ids@) + ranges@.len() <= usize::MAX
                &&& self.snapshot.trailing_excerpt_update_count < usize::MAX
            },
            Mutation::Remove { ids } => self.snapshot.trailing_excerpt_update_count < usize::MAX,
        }
    }

    /// Whether `self` is `before` after a change.
    pub open spec fn has_applied(&self, before: &MultiBuffer, mutation: Mutation) -> bool {
        match mutation {
            Mutation::Clear => self.has_cleared(before),
            Mutation::Expand { ids, line_count } => self.has_expanded(
                before,
                ids@,
                line_count,
                ExpandExcerptDirection::UpAndDown,
            ),
            Mutation::Insert { buffer, ranges } => self.shows_more(
                before,
                ExcerptId(usize::MAX),
                buffer,
                numbered(before.snapshot.excerpt_ids@, ranges@),
            ),
            Mutation::Remove { ids } => self.has_removed(before, ids@),
        }
    }

    /// Whether counts and text stay within bounds.
    pub fn has_room_for(&self, mutation: &Mutation) -> (r: bool)
        requires
            self.wf(),
            self.makes_sense(*mutation),
        ensures
            r == self.fits(*mutation),
    {
        match mutation {
            Mutation::Clear => self.snapshot.trailing_excerpt_update_count < usize::MAX,
            Mutation::Remove { ids } => self.snapshot.trailing_excerpt_update_count < usize::MAX,
            Mutation::Insert { buffer, ranges } => {
                let last_id: usize = match self.snapshot.excerpt_ids.last() {
                    Some(entry) => entry.id.0,
                    None => 0,
                };
                let len: usize = self.snapshot.len();
                match room_needed(ranges, buffer) {
                    Some(room) => {
                        assert(room == room_for(
                            numbered(self.snapshot.excerpt_ids@, ranges@),
                            **buffer,
                        ));
                        room <= MAX_TEXT_LEN - len && ranges.len() <= usize::MAX - 1 - last_id
                            && self.snapshot.trailing_excerpt_update_count < usize::MAX
                    },
                    None => {
                        assert(room_for(
                            numbered(self.snapshot.excerpt_ids@, ranges@),
                            **buffer,
                        ) > MAX_TEXT_LEN);
                        false
                    },
                }
            },
            Mutation::Expand { ids, line_count } => *line_count == 0 || self.expansion_fits(
                ids,
                *line_count,
            ),
        }
    }

    /// Whether the text stays within bounds where excerpts grow by rows at both ends.
    fn expansion_fits(&self, ids: &Vec<ExcerptId>, line_count: u32) -> (r: bool)
        requires
            self.wf(),
            forall|k: int| 0 <= k < ids@.len() ==> self.snapshot.has_excerpt(#[trigger] ids@[k]),
            line_count <= u32::MAX - MAX_TEXT_LEN,
        ensures
            r == (excerpts_text(
                self.snapshot.expansion(ids@, line_count as int, line_count as int),
            ).len() <= MAX_TEXT_LEN),
    {
        let es = &self.snapshot.excerpts;
        let ghost grown = self.snapshot.expansion(ids@, line_count as int, line_count as int);
        let mut len: usize = 0;
        let mut i: usize = 0;
        proof {
            lemma_named_excerpts(self.snapshot, ids@);
            assert(grown.take(0) =~= seq![]);
        }
        while i < es.len()
            invariant
                es@ == self.snapshot.excerpts@,
                excerpts_wf(es@),
                line_count <= u32::MAX - MAX_TEXT_LEN,
                grown == self.snapshot.expansion(ids@, line_count as int, line_count as int),
                grown.len() == es@.len(),
                forall|j: int|
                    0 <= j < es@.len() ==> #[trigger] grown[j] == if ids@.contains(es@[j].id) {
                        expanded(es@[j], line_count as int, line_count as int)
                    } else {
                        es@[j]
                    },
                i <= es@.len(),
                len == excerpt_start(grown, i as int),
                len <= MAX_TEXT_LEN,
            decreases es@.len() - i,
        {
            let excerpt = &es[i];
            proof {
                assert(excerpt.wf());
                lemma_summary_sound(excerpt.buffer.bytes().take(excerpt.end()));
                lemma_excerpts_text_step(grown, i as int);
                lemma_excerpts_text_split(grown, i + 1);
                assert(grown[i as int] == if ids@.contains(excerpt.id) {
                    expanded(*excerpt, line_count as int, line_count as int)
                } else {
                    *excerpt
                });
            }
            let text_len: usize = if has_id(ids, excerpt.id) {
                expand_excerpt(excerpt, line_count, line_count).text_summary.len
            } else {
                excerpt.text_summary.len
            };
            proof {
                assert(grown[i as int].wf());
                let shown: &BufferSnapshot = &grown[i as int].buffer;
                assert(shown.wf());
                lemma_summary_sound(grown[i as int].bytes());
            }
            len = len + text_len + if excerpt.has_trailing_newline {
                1
            } else {
                0
            };
            if len > MAX_TEXT_LEN {
                return false;
            }
            i = i + 1;
        }
        assert(grown.take(grown.len() as int) =~= grown);
        true
    }

    /// What fits can be expanded.
    proof fn lemma_can_expand(&self, ids: Seq<ExcerptId>, line_count: u32)
        requires
            self.wf(),
            forall|k: int| 0 <= k < ids.len() ==> self.snapshot.has_excerpt(#[trigger] ids[k]),
            line_count <= u32::MAX - MAX_TEXT_LEN,
            excerpts_text(
                self.snapshot.expansion(ids, line_count as int, line_count as int),
            ).len() <= MAX_TEXT_LEN,
        ensures
            self.snapshot.can_expand(ids, line_count as int, line_count as int),
    {
        let es = self.snapshot.excerpts@;
        let indexes = self.snapshot.named_indexes(ids);
        lemma_named_excerpts(self.snapshot, ids);
        assert forall|k: int| 0 <= k < ids.len() implies self.snapshot.knows_id(
            #[trigger] ids[k],
        ) by {
            self.snapshot.lemma_excerpt_id(self.snapshot.index_for(ids[k]));
        }
        assert forall|k: int| 0 <= k < indexes.len() implies es[
            #[trigger] indexes[k]].max_buffer_row + line_count <= u32::MAX by {
            let e = es[indexes[k]];
            assert(e.wf());
            lemma_summary_sound(e.buffer.bytes().take(e.end()));
        }
    }

    /// What fits can be removed.
    proof fn lemma_can_remove(&self, ids: Seq<ExcerptId>)
        requires
            self.wf(),
            names_in_order(self.snapshot, ids),
            self.snapshot.trailing_excerpt_update_count < usize::MAX,
        ensures
            self.can_remove(ids),
    {
        let es = self.snapshot.excerpts@;
        assert forall|k: int| 0 <= k < ids.len() implies self.snapshot.knows_id(#[trigger] ids[k])
            && self.snapshot.locator_for(ids[k]) == es[self.snapshot.index_for(
            ids[k],
        )].locator@ by {
            self.snapshot.lemma_excerpt_id(self.snapshot.index_for(ids[k]));
        }
        assert forall|k: int, l: int| 0 <= k < l < ids.len() implies !digits_before(
            self.snapshot.locator_for(#[trigger] ids[l]),
            self.snapshot.locator_for(#[trigger] ids[k]),
        ) by {
            assert(self.snapshot.has_excerpt(ids[k]) && self.snapshot.has_excerpt(ids[l]));
            lemma_order_strict(
                self.snapshot.locator_for(ids[k]),
                self.snapshot.locator_for(ids[l]),
            );
        }
    }

    /// Makes a change.
    pub fn apply(&mut self, mutation: &Mutation)
        requires
            old(self).wf(),
            !old(self).singleton,
            old(self).history.transaction_depth == 0,
            old(self).makes_sense(*mutation),
            old(self).fits(*mutation),
        ensures
            final(self).wf(),
            final(self).has_applied(old(self), *mutation),
            final(self).same_but_excerpts(old(self)),
    {
        match mutation {
            Mutation::Clear => {
                self.clear();
            },
            Mutation::Expand { ids, line_count } => {
                proof {
                    if *line_count > 0 {
                        self.lemma_can_expand(ids@, *line_count);
                    }
                }
                self.expand_excerpts(
                    copy_ids(ids),
                    *line_count,
                    ExpandExcerptDirection::UpAndDown,
                );
            },
            Mutation::Insert { buffer, ranges } => {
                proof {
                    let numbers = numbered(self.snapshot.excerpt_ids@, ranges@);
                    assert forall|j: int| 0 <= j < numbers.len() implies showable(
                        (#[trigger] numbers[j]).1,
                        **buffer,
                    ) by {
                        assert(showable(ranges@[j], **buffer));
                    }
                }
                self.push_excerpts(share(buffer), ranges);
            },
            Mutation::Remove { ids } => {
                proof {
                    self.lemma_can_remove(ids@);
                }
                self.remove_excerpts(copy_ids(ids));
            },
        }
    }

    /// Every identifier that was handed out keeps its place in the list, whatever
    /// becomes of its excerpt, and those that are handed out later are greater: none
    /// is handed out twice.
    pub proof fn lemma_ids_stay(&self, before: &MultiBuffer, mutation: Mutation)
        requires
            before.wf(),
            self.wf(),
            self.has_applied(before, mutation),
        ensures
            before.snapshot.excerpt_ids@.len() <= self.snapshot.excerpt_ids@.len(),
            forall|k: int|
                0 <= k < before.snapshot.excerpt_ids@.len() ==> #[trigger]
                self.snapshot.excerpt_ids@[k] == before.snapshot.excerpt_ids@[k],
            forall|k: int|
                before.snapshot.excerpt_ids@.len() <= k < self.snapshot.excerpt_ids@.len() ==> (
                #[trigger] self.snapshot.excerpt_ids@[k]).id.0 >= next_id(
                    before.snapshot.excerpt_ids@,
                ),
    {
        let old_ids = before.snapshot.excerpt_ids@;
        let new_ids = self.snapshot.excerpt_ids@;
        assert forall|k: int| old_ids.len() <= k < new_ids.len() implies (
        #[trigger] new_ids[k]).id.0 >= next_id(old_ids) by {
            if old_ids.len() > 0 {
                assert(new_ids[old_ids.len() - 1] == old_ids[old_ids.len() - 1]);
                assert(new_ids[old_ids.len() - 1].id.0 < new_ids[k].id.0);
            }
        }
    }

    /// No identifier is handed out twice, whatever changes come between: those that
    /// are handed out next are none that was handed out before the first change.
    pub proof fn lemma_never_handed_out_again(
        trace: Seq<MultiBuffer>,
        mutations: Seq<Mutation>,
        n: nat,
    )
        requires
            goes_on(trace, mutations),
            next_id(trace.last().snapshot.excerpt_ids@) + n <= usize::MAX,
        ensures
            trace[0].snapshot.excerpt_ids@.len() <= trace.last().snapshot.excerpt_ids@.len(),
            forall|j: int|
                0 <= j < trace[0].snapshot.excerpt_ids@.len() ==> #[trigger]
                trace.last().snapshot.excerpt_ids@[j] == trace[0].snapshot.excerpt_ids@[j],
            forall|j: int, k: int|
                0 <= j < trace[0].snapshot.excerpt_ids@.len() && 0 <= k < n ==> (
                #[trigger] trace[0].snapshot.excerpt_ids@[j]).id != (#[trigger] new_ids(
                    trace.last().snapshot.excerpt_ids@,
                    n,
                )[k]),
        decreases trace.len(),
    {
        let after = trace.last();
        let c = mutations.len() - 1;
        if c >= 0 {
            let front = trace.drop_last();
            let fewer = mutations.drop_last();
            assert forall|b: int| 0 <= b < fewer.len() implies front[b + 1].has_applied(
                &front[b],
                #[trigger] fewer[b],
            ) by {
                assert(trace[b + 1].has_applied(&trace[b], mutations[b]));
            }
            assert(front.last() == trace[c]);
            assert(trace[c + 1].has_applied(&trace[c], mutations[c]));
            assert(trace[c].wf() && trace[c + 1].wf());
            assert forall|b: int| 0 <= b < front.len() implies (#[trigger] front[b]).wf() by {
                assert(trace[b].wf());
            }
            Self::lemma_never_handed_out_again(front, fewer, 0);
            after.lemma_ids_stay(&trace[c], mutations[c]);
            assert forall|j: int| 0 <= j < trace[0].snapshot.excerpt_ids@.len() implies #[trigger]
            after.snapshot.excerpt_ids@[j] == trace[0].snapshot.excerpt_ids@[j] by {
                assert(front.last().snapshot.excerpt_ids@[j] == trace[0].snapshot.excerpt_ids@[j]);
                assert(after.snapshot.excerpt_ids@[j] == trace[c].snapshot.excerpt_ids@[j]);
            }
        }
        assert(after.wf()) by {
            assert(trace[trace.len() - 1].wf());
        }
        after.lemma_new_ids(n);
        assert forall|j: int, k: int|
            0 <= j < trace[0].snapshot.excerpt_ids@.len() && 0 <= k < n implies (
        #[trigger] trace[0].snapshot.excerpt_ids@[j]).id != (#[trigger] new_ids(
            after.snapshot.excerpt_ids@,
            n,
        )[k]) by {
            assert(after.snapshot.excerpt_ids@[j].id != new_ids(after.snapshot.excerpt_ids@, n)[k]);
        }
    }

    /// A change shows no buffer but that which it inserts.
    pub proof fn lemma_still_unseen(
        &self,
        before: &MultiBuffer,
        mutation: Mutation,
        other: BufferSnapshot,
    )
        requires
            before.wf(),
            before.makes_sense(mutation),
            self.has_applied(before, mutation),
            is_unseen(before.snapshot.excerpts@, other),
            mutation matches Mutation::Insert { buffer, ranges } ==> buffer.remote_id
                != other.remote_id,
        ensures
            is_unseen(self.snapshot.excerpts@, other),
    {
        let es = before.snapshot.excerpts@;
        match mutation {
            Mutation::Clear => {},
            Mutation::Expand { ids, line_count } => {
                if line_count > 0 {
                    let grown = self.snapshot.excerpts@;
                    assert forall|i: int| 0 <= i < grown.len() implies (
                    #[trigger] grown[i]).buffer_id == es[i].buffer_id by {}
                }
            },
            Mutation::Insert { buffer, ranges } => {
                lemma_inserted_unseen(
                    *before,
                    *self,
                    buffer,
                    numbered(before.snapshot.excerpt_ids@, ranges@),
                    other,
                );
            },
            Mutation::Remove { ids } => {
                if ids@.len() > 0 {
                    lemma_removed_excerpts(before.snapshot, ids@);
                    lemma_kept_unseen(es, ids@, other);
                }
            },
        }
    }
}

} // verus!
