//! Catching up with the buffers.

use std::ops::Range;
use std::sync::Arc;
use vstd::prelude::*;

use crate::buffer::{resolved, BufferId, BufferSnapshot, TextAnchor};
use crate::clock::is_newer;
use crate::excerpt::{
    excerpt_start, excerpts_text, lemma_excerpts_text_split, lemma_excerpts_text_step,
    trailing_newline, Excerpt, ExcerptId, ExcerptRange,
};
use crate::locator::digits_before;
use crate::multi_buffer::{
    buffers_wf, has_state, lemma_locators_concat, lemma_locators_same, lemma_patched_one,
    locators_of, patched, state_fits, state_of, states_distinct, BufferState, Edit, Event,
    MultiBuffer,
};
use crate::shared::share;
use crate::snapshot::{excerpts_wf, is_mapped, maps, valid_locator, ExcerptIdMapping};
use crate::text::{is_boundary, lemma_summary_sound, MAX_TEXT_LEN};

verus! {

/// What became of an excerpt of a buffer that was edited.
#[derive(Debug)]
pub struct ExcerptUpdate {
    /// Its range, in the new text of the buffer.
    pub range: ExcerptRange<TextAnchor>,
    /// The edits within it, counted from its start.
    pub edits: Vec<Edit>,
}

/// What became of a buffer since the last synchronization.
#[derive(Debug)]
pub struct BufferUpdate {
    pub buffer: Arc<BufferSnapshot>,
    /// What became of its excerpts, where it was edited.
    pub excerpts: Vec<ExcerptUpdate>,
}

/// The state of an excerpt's buffer.
pub open spec fn owner(states: Seq<BufferState>, e: Excerpt) -> int {
    choose|s: int| state_of(states, s, e)
}

/// How many excerpts of the same buffer stand before the `i`-th.
pub open spec fn ordinal(es: Seq<Excerpt>, i: int) -> int {
    locators_of(es.take(i), es[i].buffer_id).len() as int
}

/// Whether a buffer was edited.
pub open spec fn is_edited(state: BufferState, update: BufferUpdate) -> bool {
    is_newer(update.buffer.version@, state.buffer.version@)
}

/// Whether anything but the text of a buffer changed.
pub open spec fn is_updated(state: BufferState, update: BufferUpdate) -> bool {
    update.buffer.non_text_state_update_count > state.buffer.non_text_state_update_count
}

/// An excerpt of a buffer that was edited.
pub open spec fn rebuilt(
    e: Excerpt,
    buffer: Arc<BufferSnapshot>,
    range: ExcerptRange<TextAnchor>,
) -> Excerpt {
    Excerpt { buffer, range, ..e }.with_context(range.context)
}

/// The `i`-th excerpt, up to date.
pub open spec fn synced_excerpt(
    es: Seq<Excerpt>,
    states: Seq<BufferState>,
    updates: Seq<BufferUpdate>,
    i: int,
) -> Excerpt {
    let s = owner(states, es[i]);
    if is_edited(states[s], updates[s]) {
        rebuilt(es[i], updates[s].buffer, updates[s].excerpts@[ordinal(es, i)].range)
    } else if is_updated(states[s], updates[s]) {
        Excerpt { buffer: updates[s].buffer, ..es[i] }
    } else {
        es[i]
    }
}

/// The excerpts, up to date.
pub open spec fn synced(
    es: Seq<Excerpt>,
    states: Seq<BufferState>,
    updates: Seq<BufferUpdate>,
) -> Seq<Excerpt> {
    Seq::new(es.len(), |i: int| synced_excerpt(es, states, updates, i))
}

pub open spec fn shifted_edit(edit: Edit, old_by: int, new_by: int) -> Edit {
    Edit {
        old: Range {
            start: (edit.old.start + old_by) as usize,
            end: (edit.old.end + old_by) as usize,
        },
        new: Range {
            start: (edit.new.start + new_by) as usize,
            end: (edit.new.end + new_by) as usize,
        },
    }
}

/// Edits, counted from further in front.
pub open spec fn shifted(edits: Seq<Edit>, old_by: int, new_by: int) -> Seq<Edit> {
    edits.map_values(|edit: Edit| shifted_edit(edit, old_by, new_by))
}

/// The edits within the `i`-th excerpt, counted from its start.
pub open spec fn edits_within(
    es: Seq<Excerpt>,
    states: Seq<BufferState>,
    updates: Seq<BufferUpdate>,
    i: int,
) -> Seq<Edit> {
    let s = owner(states, es[i]);
    if is_edited(states[s], updates[s]) {
        updates[s].excerpts@[ordinal(es, i)].edits@
    } else {
        seq![]
    }
}

/// The edits within the first `n` excerpts.
pub open spec fn synced_edits(
    es: Seq<Excerpt>,
    states: Seq<BufferState>,
    updates: Seq<BufferUpdate>,
    n: int,
) -> Seq<Edit>
    decreases n,
{
    if n <= 0 {
        seq![]
    } else {
        synced_edits(es, states, updates, n - 1) + shifted(
            edits_within(es, states, updates, n - 1),
            excerpt_start(es, n - 1),
            excerpt_start(synced(es, states, updates), n - 1),
        )
    }
}

/// Whether an update of an excerpt fits the new text of its buffer, and its
/// edits lie within the excerpt.
pub open spec fn excerpt_update_fits(
    e: Excerpt,
    buffer: BufferSnapshot,
    update: ExcerptUpdate,
) -> bool {
    let len = buffer.bytes().len() as int;
    let start = resolved(update.range.context.start, len);
    let end = resolved(update.range.context.end, len);
    &&& start <= end
    &&& is_boundary(buffer.bytes(), start)
    &&& is_boundary(buffer.bytes(), end)
    &&& forall|k: int|
        0 <= k < update.edits@.len() ==> {
            &&& (#[trigger] update.edits@[k]).old.start <= update.edits@[k].old.end
                <= e.bytes().len()
            &&& update.edits@[k].new.start <= update.edits@[k].new.end <= end - start
        }
}

/// Whether an update of a buffer fits its state: an edited buffer brings an
/// update of each of its excerpts, and one that was not edited has the same
/// text.
pub open spec fn update_fits(
    states: Seq<BufferState>,
    updates: Seq<BufferUpdate>,
    s: int,
) -> bool {
    &&& updates[s].buffer.wf()
    &&& updates[s].buffer.remote_id == states[s].buffer.remote_id
    &&& is_edited(states[s], updates[s]) ==> updates[s].excerpts@.len()
        == states[s].excerpts@.len()
    &&& !is_edited(states[s], updates[s]) ==> updates[s].buffer.bytes()
        == states[s].buffer.bytes()
}

/// Whether updates of the buffers can be taken over.
pub open spec fn updates_fit(
    es: Seq<Excerpt>,
    states: Seq<BufferState>,
    updates: Seq<BufferUpdate>,
) -> bool {
    &&& updates.len() == states.len()
    &&& forall|s: int|
        0 <= s < states.len() ==> #[trigger] update_fits(states, updates, s)
    &&& forall|i: int|
        0 <= i < es.len() && is_edited(
            states[owner(states, es[i])],
            updates[owner(states, es[i])],
        ) ==> excerpt_update_fits(
            #[trigger] es[i],
            *updates[owner(states, es[i])].buffer,
            updates[owner(states, es[i])].excerpts@[ordinal(es, i)],
        )
    &&& excerpts_text(synced(es, states, updates)).len() <= MAX_TEXT_LEN
}

/// Text behind an edited text that stays the same is out of the edits' way.
pub proof fn lemma_patched_suffix(a: Seq<u8>, b: Seq<u8>, edits: Seq<Edit>, suffix: Seq<u8>)
    requires
        patched(a, b, edits),
    ensures
        patched(a + suffix, b + suffix, edits),
{
    if edits.len() > 0 {
        let last = edits.last();
        assert((a + suffix).skip(last.old.end as int) =~= a.skip(last.old.end as int) + suffix);
        assert((b + suffix).skip(last.new.end as int) =~= b.skip(last.new.end as int) + suffix);
        assert((a + suffix).take(last.old.start as int) =~= a.take(last.old.start as int));
        assert((b + suffix).take(last.new.start as int) =~= b.take(last.new.start as int));
    }
}

/// Edits of two texts that follow one another are edits of the whole.
pub proof fn lemma_patched_concat(
    a: Seq<u8>,
    a2: Seq<u8>,
    a_edits: Seq<Edit>,
    b: Seq<u8>,
    b2: Seq<u8>,
    b_edits: Seq<Edit>,
)
    requires
        patched(a, a2, a_edits),
        patched(b, b2, b_edits),
        a.len() + b.len() <= usize::MAX,
        a2.len() + b2.len() <= usize::MAX,
    ensures
        patched(
            a + b,
            a2 + b2,
            a_edits + shifted(b_edits, a.len() as int, a2.len() as int),
        ),
    decreases b_edits.len(),
{
    let moved = shifted(b_edits, a.len() as int, a2.len() as int);
    if b_edits.len() == 0 {
        assert(a_edits + moved =~= a_edits);
        lemma_patched_suffix(a, a2, a_edits, b);
    } else {
        let last = b_edits.last();
        let front = b_edits.drop_last();
        let b_front = b.take(last.old.start as int);
        let b2_front = b2.take(last.new.start as int);
        lemma_patched_concat(a, a2, a_edits, b_front, b2_front, front);
        let all = a_edits + moved;
        let moved_last = all.last();
        assert(moved_last == shifted_edit(last, a.len() as int, a2.len() as int));
        assert(all.drop_last() =~= a_edits + shifted(
            front,
            a.len() as int,
            a2.len() as int,
        ));
        assert((a + b).skip(moved_last.old.end as int) =~= b.skip(last.old.end as int));
        assert((a2 + b2).skip(moved_last.new.end as int) =~= b2.skip(last.new.end as int));
        assert((a + b).take(moved_last.old.start as int) =~= a + b_front);
        assert((a2 + b2).take(moved_last.new.start as int) =~= a2 + b2_front);
    }
}

/// The state of an excerpt's buffer is the one with the buffer's identifier.
proof fn lemma_owner(states: Seq<BufferState>, e: Excerpt, s: int)
    requires
        states_distinct(states),
        has_state(states, e),
        0 <= s < states.len(),
        states[s].buffer.remote_id == e.buffer.remote_id,
    ensures
        owner(states, e) == s,
        states[s].buffer == e.buffer,
{
    let t = owner(states, e);
    assert(state_of(states, t, e));
    if t < s {
        assert(states[t].buffer.remote_id != states[s].buffer.remote_id);
    }
    if s < t {
        assert(states[s].buffer.remote_id != states[t].buffer.remote_id);
    }
}

/// What became of the state of a buffer.
pub open spec fn synced_state(state: BufferState, update: BufferUpdate) -> BufferState {
    if is_edited(state, update) || is_updated(state, update) {
        BufferState { buffer: update.buffer, ..state }
    } else {
        state
    }
}

/// The states of the buffers, up to date.
pub open spec fn synced_states(
    states: Seq<BufferState>,
    updates: Seq<BufferUpdate>,
) -> Seq<BufferState> {
    Seq::new(states.len(), |s: int| synced_state(states[s], updates[s]))
}

/// Each excerpt of an edited buffer has an update.
proof fn lemma_ordinal(es: Seq<Excerpt>, i: int)
    requires
        0 <= i < es.len(),
    ensures
        0 <= ordinal(es, i) < locators_of(es, es[i].buffer_id).len(),
        forall|id: BufferId| #[trigger]
            locators_of(es.take(i + 1), id).len() == locators_of(es.take(i), id).len() + if id
                == es[i].buffer_id {
                1int
            } else {
                0int
            },
{
    let id = es[i].buffer_id;
    assert(es.take(i + 1).drop_last() =~= es.take(i));
    assert(es =~= es.take(i + 1) + es.skip(i + 1));
    lemma_locators_concat(es.take(i + 1), es.skip(i + 1), id);
}

/// An excerpt that is brought up to date stays in its place, shows the buffer
/// that its state holds, and is well-formed.
proof fn lemma_synced_excerpt(
    es: Seq<Excerpt>,
    states: Seq<BufferState>,
    updates: Seq<BufferUpdate>,
    i: int,
)
    requires
        excerpts_wf(es),
        buffers_wf(es, states),
        updates_fit(es, states, updates),
        0 <= i < es.len(),
    ensures
        ({
            let e = synced_excerpt(es, states, updates, i);
            let s = owner(states, es[i]);
            &&& e.wf()
            &&& e.id == es[i].id
            &&& e.locator == es[i].locator
            &&& e.buffer_id == es[i].buffer_id
            &&& e.has_trailing_newline == es[i].has_trailing_newline
            &&& 0 <= s < states.len()
            &&& states[s].buffer == es[i].buffer
            &&& e.buffer == synced_state(states[s], updates[s]).buffer
            &&& !is_edited(states[s], updates[s]) ==> e.bytes() == es[i].bytes()
        }),
{
    reveal(buffers_wf);
    let e = synced_excerpt(es, states, updates, i);
    assert(has_state(states, es[i]));
    let s = owner(states, es[i]);
    assert(state_of(states, s, es[i]));
    assert(update_fits(states, updates, s));
    lemma_ordinal(es, i);
    if is_edited(states[s], updates[s]) {
        lemma_summary_sound(e.bytes());
        let bytes = e.buffer.bytes();
        lemma_summary_sound(bytes.take(e.end()));
    }
}

/// Excerpts that are brought up to date keep everything well-formed.
proof fn lemma_synced(
    es: Seq<Excerpt>,
    states: Seq<BufferState>,
    updates: Seq<BufferUpdate>,
    ids: Seq<ExcerptIdMapping>,
)
    requires
        excerpts_wf(es),
        buffers_wf(es, states),
        updates_fit(es, states, updates),
        forall|i: int| 0 <= i < es.len() ==> is_mapped(ids, #[trigger] es[i]),
    ensures
        excerpts_wf(synced(es, states, updates)),
        buffers_wf(synced(es, states, updates), synced_states(states, updates)),
        forall|i: int|
            0 <= i < es.len() ==> is_mapped(ids, #[trigger] synced(es, states, updates)[i]),
{
    let news = synced(es, states, updates);
    let new_states = synced_states(states, updates);
    assert forall|i: int| 0 <= i < es.len() implies {
        &&& (#[trigger] news[i]).wf()
        &&& news[i].has_trailing_newline == (i < news.len() - 1)
        &&& news[i].locator == es[i].locator
        &&& news[i].buffer_id == es[i].buffer_id
        &&& valid_locator(news[i].locator@)
        &&& is_mapped(ids, news[i])
        &&& has_state(new_states, news[i])
    } by {
        lemma_synced_excerpt(es, states, updates, i);
        assert(es[i].has_trailing_newline == (i < es.len() - 1));
        assert(valid_locator(es[i].locator@));
        assert(is_mapped(ids, es[i]));
        let k = choose|k: int| maps(ids, k, es[i]);
        assert(maps(ids, k, news[i]));
        assert(state_of(new_states, owner(states, es[i]), news[i]));
    }
    assert forall|i: int, j: int| 0 <= i < j < news.len() implies digits_before(
        (#[trigger] news[i]).locator@,
        (#[trigger] news[j]).locator@,
    ) by {
        assert(digits_before(es[i].locator@, es[j].locator@));
    }
    assert(buffers_wf(news, new_states)) by {
        reveal(buffers_wf);
        assert forall|s: int| 0 <= s < new_states.len() implies state_fits(
            news,
            #[trigger] new_states[s],
        ) by {
            assert(state_fits(es, states[s]));
            assert(update_fits(states, updates, s));
            lemma_locators_same(news, es, states[s].buffer.remote_id);
        }
        assert forall|a: int, b: int| 0 <= a < b < new_states.len() implies (
        #[trigger] new_states[a]).buffer.remote_id != (
        #[trigger] new_states[b]).buffer.remote_id by {
            assert(update_fits(states, updates, a) && update_fits(states, updates, b));
            assert(states[a].buffer.remote_id != states[b].buffer.remote_id);
        }
    }
}

/// Whether the edits of each excerpt turn what it showed into what it shows.
pub open spec fn edits_tell(
    es: Seq<Excerpt>,
    states: Seq<BufferState>,
    updates: Seq<BufferUpdate>,
) -> bool {
    forall|i: int|
        0 <= i < es.len() ==> patched(
            (#[trigger] es[i]).bytes(),
            synced_excerpt(es, states, updates, i).bytes(),
            edits_within(es, states, updates, i),
        )
}

/// Where the edits of each excerpt tell what became of it, the edits of all of
/// them tell what became of the text.
pub proof fn lemma_synced_patched(
    es: Seq<Excerpt>,
    states: Seq<BufferState>,
    updates: Seq<BufferUpdate>,
    n: int,
)
    requires
        excerpts_wf(es),
        buffers_wf(es, states),
        updates_fit(es, states, updates),
        edits_tell(es, states, updates),
        0 <= n <= es.len(),
    ensures
        patched(
            excerpts_text(es.take(n)),
            excerpts_text(synced(es, states, updates).take(n)),
            synced_edits(es, states, updates, n),
        ),
    decreases n,
{
    let news = synced(es, states, updates);
    if n > 0 {
        let i = n - 1;
        lemma_synced_patched(es, states, updates, i);
        lemma_synced_excerpt(es, states, updates, i);
        lemma_excerpts_text_step(es, i);
        lemma_excerpts_text_step(news, i);
        lemma_excerpts_text_split(es, n);
        lemma_excerpts_text_split(news, n);
        let within = edits_within(es, states, updates, i);
        assert(patched(es[i].bytes(), news[i].bytes(), within));
        lemma_patched_suffix(
            es[i].bytes(),
            news[i].bytes(),
            within,
            trailing_newline(es[i].has_trailing_newline),
        );
        lemma_patched_concat(
            excerpts_text(es.take(i)),
            excerpts_text(news.take(i)),
            synced_edits(es, states, updates, i),
            es[i].text(),
            news[i].text(),
            within,
        );
    } else {
        assert(es.take(0) =~= Seq::empty());
        assert(news.take(0) =~= Seq::empty());
    }
}

impl Excerpt {
    /// The excerpt, after its buffer was edited.
    fn rebuilt(&self, buffer: &Arc<BufferSnapshot>, range: &ExcerptRange<TextAnchor>) -> (r: Self)
        requires
            buffer.wf(),
            buffer.remote_id == self.buffer_id,
            resolved(range.context.start, buffer.bytes().len() as int) <= resolved(
                range.context.end,
                buffer.bytes().len() as int,
            ),
            is_boundary(
                buffer.bytes(),
                resolved(range.context.start, buffer.bytes().len() as int),
            ),
            is_boundary(
                buffer.bytes(),
                resolved(range.context.end, buffer.bytes().len() as int),
            ),
        ensures
            r == rebuilt(*self, *buffer, *range),
    {
        let start: usize = range.context.start.to_offset(buffer);
        let end: usize = range.context.end.to_offset(buffer);
        Excerpt {
            id: self.id,
            locator: self.locator.clone(),
            buffer_id: self.buffer_id,
            max_buffer_row: range.context.end.to_point(buffer).row,
            text_summary: buffer.text_summary_for_range(start..end),
            buffer: share(buffer),
            range: range.clone(),
            has_trailing_newline: self.has_trailing_newline,
        }
    }
}

/// Appends edits, counted from further in front.
fn append_shifted(into: &mut Vec<Edit>, edits: &Vec<Edit>, old_by: usize, new_by: usize)
    requires
        forall|k: int|
            0 <= k < edits@.len() ==> {
                &&& (#[trigger] edits@[k]).old.start + old_by <= usize::MAX
                &&& edits@[k].old.end + old_by <= usize::MAX
                &&& edits@[k].new.start + new_by <= usize::MAX
                &&& edits@[k].new.end + new_by <= usize::MAX
            },
    ensures
        final(into)@ == old(into)@ + shifted(edits@, old_by as int, new_by as int),
{
    let ghost before = into@;
    let mut k: usize = 0;
    while k < edits.len()
        invariant
            k <= edits@.len(),
            into@ == before + shifted(edits@, old_by as int, new_by as int).take(k as int),
            forall|k: int|
                0 <= k < edits@.len() ==> {
                    &&& (#[trigger] edits@[k]).old.start + old_by <= usize::MAX
                    &&& edits@[k].old.end + old_by <= usize::MAX
                    &&& edits@[k].new.start + new_by <= usize::MAX
                    &&& edits@[k].new.end + new_by <= usize::MAX
                },
        decreases edits@.len() - k,
    {
        let edit = &edits[k];
        into.push(
            Edit {
                old: edit.old.start + old_by..edit.old.end + old_by,
                new: edit.new.start + new_by..edit.new.end + new_by,
            },
        );
        let ghost all = shifted(edits@, old_by as int, new_by as int);
        assert(all.take(k + 1) =~= all.take(k as int).push(all[k as int]));
        assert(into@ =~= before + all.take(k + 1));
        k = k + 1;
    }
    let ghost all = shifted(edits@, old_by as int, new_by as int);
    assert(all.take(edits@.len() as int) =~= all);
}

/// Whether some buffer is dirty.
pub open spec fn some_dirty(updates: Seq<BufferUpdate>) -> bool {
    exists|s: int| 0 <= s < updates.len() && (#[trigger] updates[s]).buffer.is_dirty
}

/// Whether the file of some buffer is gone.
pub open spec fn some_deleted(updates: Seq<BufferUpdate>) -> bool {
    exists|s: int| 0 <= s < updates.len() && (#[trigger] updates[s]).buffer.has_deleted_file
}

/// Whether some buffer is in conflict with its file.
pub open spec fn some_conflict(updates: Seq<BufferUpdate>) -> bool {
    exists|s: int| 0 <= s < updates.len() && (#[trigger] updates[s]).buffer.has_conflict
}

/// Whether buffers are dirty, deleted or in conflict depends on the buffers alone.
proof fn lemma_same_flags(a: Seq<BufferUpdate>, b: Seq<BufferUpdate>)
    requires
        a.len() == b.len(),
        forall|s: int| 0 <= s < a.len() ==> (#[trigger] b[s]).buffer == a[s].buffer,
    ensures
        some_dirty(a) == some_dirty(b),
        some_deleted(a) == some_deleted(b),
        some_conflict(a) == some_conflict(b),
{
    assert forall|s: int| 0 <= s < a.len() implies (#[trigger] a[s]).buffer == b[s].buffer by {
        assert(b[s].buffer == a[s].buffer);
    }
}

/// Where no buffer was edited, there are no edits.
proof fn lemma_no_edits(
    es: Seq<Excerpt>,
    states: Seq<BufferState>,
    updates: Seq<BufferUpdate>,
    n: int,
)
    requires
        0 <= n <= es.len(),
        forall|i: int|
            0 <= i < es.len() ==> 0 <= owner(states, #[trigger] es[i]) < states.len(),
        forall|s: int| 0 <= s < states.len() ==> !is_edited(#[trigger] states[s], updates[s]),
    ensures
        synced_edits(es, states, updates, n).len() == 0,
    decreases n,
{
    if n > 0 {
        lemma_no_edits(es, states, updates, n - 1);
        let s = owner(states, es[n - 1]);
        assert(!is_edited(states[s], updates[s]));
    }
}

/// What changed of some buffer.
struct Changes {
    edited: bool,
    updated: bool,
    is_dirty: bool,
    has_deleted_file: bool,
    has_conflict: bool,
}

/// Whether some buffer was edited.
pub open spec fn some_edited(states: Seq<BufferState>, updates: Seq<BufferUpdate>) -> bool {
    exists|s: int| 0 <= s < states.len() && is_edited(#[trigger] states[s], updates[s])
}

/// Whether something but its text changed of some buffer.
pub open spec fn some_updated(states: Seq<BufferState>, updates: Seq<BufferUpdate>) -> bool {
    exists|s: int| 0 <= s < states.len() && is_updated(#[trigger] states[s], updates[s])
}

/// Takes over what the buffers hold by now.
fn sync_states(states: &mut Vec<BufferState>, updates: &Vec<BufferUpdate>) -> (r: Changes)
    requires
        old(states)@.len() == updates@.len(),
    ensures
        final(states)@ == synced_states(old(states)@, updates@),
        r.edited == some_edited(old(states)@, updates@),
        r.updated == some_updated(old(states)@, updates@),
        r.is_dirty == some_dirty(updates@),
        r.has_deleted_file == some_deleted(updates@),
        r.has_conflict == some_conflict(updates@),
{
    let ghost before = states@;
    let mut edited: bool = false;
    let mut updated: bool = false;
    let mut is_dirty: bool = false;
    let mut has_deleted_file: bool = false;
    let mut has_conflict: bool = false;
    let mut s: usize = 0;
    while s < updates.len()
        invariant
            s <= updates@.len(),
            updates@.len() == before.len(),
            states@.len() == before.len(),
            forall|t: int|
                0 <= t < s ==> #[trigger] states@[t] == synced_state(before[t], updates@[t]),
            forall|t: int| s <= t < before.len() ==> #[trigger] states@[t] == before[t],
            edited == exists|t: int| 0 <= t < s && is_edited(#[trigger] before[t], updates@[t]),
            updated == exists|t: int| 0 <= t < s && is_updated(#[trigger] before[t], updates@[t]),
            is_dirty == exists|t: int| 0 <= t < s && (#[trigger] updates@[t]).buffer.is_dirty,
            has_deleted_file == exists|t: int|
                0 <= t < s && (#[trigger] updates@[t]).buffer.has_deleted_file,
            has_conflict == exists|t: int|
                0 <= t < s && (#[trigger] updates@[t]).buffer.has_conflict,
        decreases updates@.len() - s,
    {
        let buffer = &updates[s].buffer;
        let buffer_edited: bool = buffer.version.changed_since(&states[s].buffer.version);
        let buffer_updated: bool = buffer.non_text_state_update_count
            > states[s].buffer.non_text_state_update_count;
        if buffer_edited || buffer_updated {
            states[s].buffer = share(buffer);
        }
        assert(states@[s as int] == synced_state(before[s as int], updates@[s as int]));
        edited = edited || buffer_edited;
        updated = updated || buffer_updated;
        is_dirty = is_dirty || buffer.is_dirty;
        has_deleted_file = has_deleted_file || buffer.has_deleted_file;
        has_conflict = has_conflict || buffer.has_conflict;
        s = s + 1;
    }
    assert(states@ =~= synced_states(before, updates@));
    Changes { edited, updated, is_dirty, has_deleted_file, has_conflict }
}

impl MultiBuffer {
    /// Whether `self` is `before`, brought up to date with its buffers.
    pub open spec fn has_synced(&self, before: &MultiBuffer, updates: Seq<BufferUpdate>) -> bool {
        let es = before.snapshot.excerpts@;
        let states = before.buffers@;
        self.has_taken_over(
            before,
            updates,
            synced(es, states, updates),
            synced_edits(es, states, updates, es.len() as int),
        )
    }

    /// Whether `self` is `before` with other excerpts, the states of its buffers
    /// brought up to date, and edits published.
    pub open spec fn has_taken_over(
        &self,
        before: &MultiBuffer,
        updates: Seq<BufferUpdate>,
        es: Seq<Excerpt>,
        edits: Seq<Edit>,
    ) -> bool {
        let states = before.buffers@;
        &&& self.snapshot.excerpts@ == es
        &&& self.buffers@ == synced_states(states, updates)
        &&& self.published_on(before, edits)
        &&& self.snapshot.edit_count == before.snapshot.edit_count + if some_edited(
            states,
            updates,
        ) {
            1int
        } else {
            0int
        }
        &&& self.snapshot.non_text_state_update_count
            == before.snapshot.non_text_state_update_count + if some_updated(states, updates) {
            1int
        } else {
            0int
        }
        &&& self.snapshot.is_dirty == some_dirty(updates)
        &&& self.snapshot.has_deleted_file == some_deleted(updates)
        &&& self.snapshot.has_conflict == some_conflict(updates)
        &&& self.snapshot.excerpt_ids@ == before.snapshot.excerpt_ids@
        &&& self.snapshot.singleton == before.snapshot.singleton
        &&& self.snapshot.trailing_excerpt_update_count
            == before.snapshot.trailing_excerpt_update_count
        &&& self.snapshot.show_headers == before.snapshot.show_headers
        &&& self.same_but_excerpts(before)
        &&& self.events == before.events
    }
}

impl MultiBuffer {
    /// The excerpts, up to date, and the edits within them.
    fn synced_excerpts(&self, updates: &Vec<BufferUpdate>) -> (r: (Vec<Excerpt>, Vec<Edit>))
        requires
            self.wf(),
            updates_fit(self.snapshot.excerpts@, self.buffers@, updates@),
        ensures
            r.0@ == synced(self.snapshot.excerpts@, self.buffers@, updates@),
            r.1@ == synced_edits(
                self.snapshot.excerpts@,
                self.buffers@,
                updates@,
                self.snapshot.excerpts@.len() as int,
            ),
    {
        let ghost es = self.snapshot.excerpts@;
        let ghost states = self.buffers@;
        let ghost news = synced(es, states, updates@);
        let mut counts: Vec<usize> = Vec::new();
        let mut s: usize = 0;
        while s < self.buffers.len()
            invariant
                s <= self.buffers@.len(),
                counts@.len() == s,
                forall|t: int| 0 <= t < s ==> #[trigger] counts@[t] == 0,
            decreases self.buffers@.len() - s,
        {
            counts.push(0);
            s = s + 1;
        }
        let mut excerpts: Vec<Excerpt> = Vec::new();
        let mut edits: Vec<Edit> = Vec::new();
        let mut old_start: usize = 0;
        let mut new_start: usize = 0;
        let mut i: usize = 0;
        assert(es.take(0) =~= Seq::empty());
        assert(news.take(0) =~= Seq::empty());
        while i < self.snapshot.excerpts.len()
            invariant
                self.wf(),
                updates_fit(es, states, updates@),
                es == self.snapshot.excerpts@,
                states == self.buffers@,
                news == synced(es, states, updates@),
                i <= es.len(),
                excerpts@ == news.take(i as int),
                edits@ == synced_edits(es, states, updates@, i as int),
                old_start == excerpt_start(es, i as int),
                new_start == excerpt_start(news, i as int),
                counts@.len() == states.len(),
                forall|t: int|
                    0 <= t < states.len() ==> #[trigger] counts@[t] == locators_of(
                        es.take(i as int),
                        states[t].buffer.remote_id,
                    ).len(),
            decreases es.len() - i,
        {
            let excerpt = &self.snapshot.excerpts[i];
            let ghost e = es[i as int];
            proof {
                lemma_synced_excerpt(es, states, updates@, i as int);
                lemma_ordinal(es, i as int);
                lemma_excerpts_text_step(es, i as int);
                lemma_excerpts_text_step(news, i as int);
                lemma_excerpts_text_split(es, i + 1);
                lemma_excerpts_text_split(news, i + 1);
                lemma_summary_sound(e.bytes());
                lemma_summary_sound(news[i as int].bytes());
                assert(news[i as int] == synced_excerpt(es, states, updates@, i as int));
            }
            let found = self.buffer_state_index(excerpt.buffer_id);
            let s: usize = match found {
                Some(s) => s,
                None => {
                    assert(states[owner(states, e)].buffer == e.buffer);
                    0
                },
            };
            proof {
                assert(has_state(states, e)) by {
                    reveal(buffers_wf);
                }
                assert(states_distinct(states)) by {
                    reveal(buffers_wf);
                }
                lemma_owner(states, e, s as int);
                assert(update_fits(states, updates@, s as int));
                assert(state_fits(es, states[s as int])) by {
                    reveal(buffers_wf);
                }
            }
            let state = &self.buffers[s];
            let update = &updates[s];
            let new_excerpt = if update.buffer.version.changed_since(&state.buffer.version) {
                let change = &update.excerpts[counts[s]];
                append_shifted(&mut edits, &change.edits, old_start, new_start);
                excerpt.rebuilt(&update.buffer, &change.range)
            } else if update.buffer.non_text_state_update_count
                > state.buffer.non_text_state_update_count {
                assert(shifted(seq![], old_start as int, new_start as int) =~= seq![]);
                let mut new_excerpt = excerpt.clone();
                new_excerpt.buffer = share(&update.buffer);
                new_excerpt
            } else {
                assert(shifted(seq![], old_start as int, new_start as int) =~= seq![]);
                excerpt.clone()
            };
            assert(edits@ =~= synced_edits(es, states, updates@, i + 1));
            assert(new_excerpt == news[i as int]);
            let newline: usize = if excerpt.has_trailing_newline {
                1
            } else {
                0
            };
            old_start = old_start + (excerpt.text_summary.len + newline);
            new_start = new_start + (new_excerpt.text_summary.len + newline);
            excerpts.push(new_excerpt);
            assert(excerpts@ =~= news.take(i + 1));
            let count: usize = counts[s];
            assert(count < state.excerpts.len());
            counts.set(s, count + 1);
            assert forall|t: int| 0 <= t < states.len() implies #[trigger] counts@[t]
                == locators_of(es.take(i + 1), states[t].buffer.remote_id).len() by {
                if t != s {
                    if t < s {
                        assert(states[t].buffer.remote_id != states[s as int].buffer.remote_id);
                    } else {
                        assert(states[s as int].buffer.remote_id != states[t].buffer.remote_id);
                    }
                }
            }
            i = i + 1;
        }
        assert(news.take(es.len() as int) =~= news);
        (excerpts, edits)
    }

    /// Catches up with the buffers: takes over what each of them holds by now.
    pub fn sync(&mut self, updates: &Vec<BufferUpdate>)
        requires
            old(self).wf(),
            updates_fit(old(self).snapshot.excerpts@, old(self).buffers@, updates@),
            old(self).singleton ==> forall|i: int|
                0 <= i < old(self).snapshot.excerpts@.len() ==> ({
                    let e = #[trigger] synced(
                        old(self).snapshot.excerpts@,
                        old(self).buffers@,
                        updates@,
                    )[i];
                    e.start() == 0 && e.end() == e.buffer.bytes().len()
                }),
            old(self).snapshot.edit_count < usize::MAX,
            old(self).snapshot.non_text_state_update_count < usize::MAX,
        ensures
            final(self).wf(),
            final(self).has_synced(old(self), updates@),
            edits_tell(old(self).snapshot.excerpts@, old(self).buffers@, updates@) ==> patched(
                old(self).snapshot.bytes(),
                final(self).snapshot.bytes(),
                final(self).published@.last()@,
            ),
    {
        let ghost before = *self;
        let ghost es = self.snapshot.excerpts@;
        let ghost states = self.buffers@;
        let (excerpts, edits) = self.synced_excerpts(updates);
        proof {
            lemma_synced(es, states, updates@, self.snapshot.excerpt_ids@);
            if edits_tell(es, states, updates@) {
                lemma_synced_patched(es, states, updates@, es.len() as int);
                assert(es.take(es.len() as int) =~= es);
                assert(excerpts@.take(es.len() as int) =~= excerpts@);
            }
        }
        self.take_over(updates, excerpts, edits, Ghost(before));
    }

    /// Takes over excerpts that are up to date, and the buffers that they show.
    fn take_over(
        &mut self,
        updates: &Vec<BufferUpdate>,
        excerpts: Vec<Excerpt>,
        edits: Vec<Edit>,
        Ghost(before): Ghost<MultiBuffer>,
    )
        requires
            *old(self) == before,
            before.wf(),
            before.buffers@.len() == updates@.len(),
            excerpts_wf(excerpts@),
            buffers_wf(excerpts@, synced_states(before.buffers@, updates@)),
            forall|i: int|
                0 <= i < excerpts@.len() ==> is_mapped(
                    before.snapshot.excerpt_ids@,
                    #[trigger] excerpts@[i],
                ),
            excerpts@.len() == before.snapshot.excerpts@.len(),
            before.singleton ==> forall|i: int|
                0 <= i < excerpts@.len() ==> (#[trigger] excerpts@[i]).start() == 0
                    && excerpts@[i].end() == excerpts@[i].buffer.bytes().len(),
            before.snapshot.edit_count < usize::MAX,
            before.snapshot.non_text_state_update_count < usize::MAX,
        ensures
            final(self).wf(),
            final(self).has_taken_over(&before, updates@, excerpts@, edits@),
    {
        let changes = sync_states(&mut self.buffers, updates);
        if changes.edited {
            self.snapshot.edit_count = self.snapshot.edit_count + 1;
        }
        if changes.updated {
            self.snapshot.non_text_state_update_count = self.snapshot.non_text_state_update_count
                + 1;
        }
        self.snapshot.is_dirty = changes.is_dirty;
        self.snapshot.has_deleted_file = changes.has_deleted_file;
        self.snapshot.has_conflict = changes.has_conflict;
        self.snapshot.excerpts = excerpts;
        self.published.push(edits);
        assert(self.published@.drop_last() =~= before.published@);
    }

    /// Catching up twice is catching up once: where the buffers hold the same as
    /// they did, nothing of the contents changes, and no edit is published.
    pub proof fn lemma_synced_twice(
        &self,
        before: &MultiBuffer,
        once: &MultiBuffer,
        updates: Seq<BufferUpdate>,
        again: Seq<BufferUpdate>,
    )
        requires
            once.wf(),
            updates.len() == before.buffers@.len(),
            again.len() == updates.len(),
            forall|s: int|
                0 <= s < updates.len() ==> (#[trigger] again[s]).buffer == updates[s].buffer,
            once.has_synced(before, updates),
            self.has_synced(once, again),
        ensures
            self.snapshot.excerpts@ == once.snapshot.excerpts@,
            self.snapshot.bytes() == once.snapshot.bytes(),
            self.buffers@ == once.buffers@,
            self.snapshot.edit_count == once.snapshot.edit_count,
            self.snapshot.non_text_state_update_count
                == once.snapshot.non_text_state_update_count,
            self.snapshot.is_dirty == once.snapshot.is_dirty,
            self.snapshot.has_deleted_file == once.snapshot.has_deleted_file,
            self.snapshot.has_conflict == once.snapshot.has_conflict,
            self.published@.last()@.len() == 0,
    {
        let es = once.snapshot.excerpts@;
        let states = once.buffers@;
        assert forall|s: int| 0 <= s < states.len() implies !is_edited(
            #[trigger] states[s],
            again[s],
        ) && !is_updated(states[s], again[s]) by {
            assert(states[s] == synced_state(before.buffers@[s], updates[s]));
            assert(again[s].buffer == updates[s].buffer);
        }
        assert forall|i: int| 0 <= i < es.len() implies 0 <= owner(states, #[trigger] es[i])
            < states.len() by {
            reveal(buffers_wf);
            assert(has_state(states, es[i]));
        }
        assert(synced_states(states, again) =~= states);
        assert(synced(es, states, again) =~= es);
        lemma_no_edits(es, states, again, es.len() as int);
        lemma_same_flags(updates, again);
    }

    /// Whether `self` is `before` with all excerpts removed.
    pub open spec fn has_cleared(&self, before: &MultiBuffer) -> bool {
        &&& self.snapshot.excerpts@.len() == 0
        &&& self.buffers@.len() == 0
        &&& self.snapshot.excerpt_ids@ == before.snapshot.excerpt_ids@
        &&& self.snapshot.trailing_excerpt_update_count
            == before.snapshot.trailing_excerpt_update_count + 1
        &&& !self.snapshot.is_dirty
        &&& !self.snapshot.has_deleted_file
        &&& !self.snapshot.has_conflict
        &&& self.snapshot.singleton == before.snapshot.singleton
        &&& self.snapshot.non_text_state_update_count
            == before.snapshot.non_text_state_update_count
        &&& self.snapshot.edit_count == before.snapshot.edit_count
        &&& self.snapshot.show_headers == before.snapshot.show_headers
        &&& self.same_but_excerpts(before)
        &&& self.published_on(before, seq![
            Edit {
                old: Range { start: 0, end: before.snapshot.bytes().len() as usize },
                new: Range { start: 0, end: 0 },
            },
        ])
        &&& patched(before.snapshot.bytes(), self.snapshot.bytes(), self.published@.last()@)
        &&& self.events@.len() == before.events@.len() + 2
        &&& self.events@.take(before.events@.len() as int) == before.events@
        &&& self.events@[before.events@.len() as int] == (Event::Edited {
            singleton_buffer_edited: false,
            edited_buffer: None,
        })
        &&& self.events@.last() matches Event::ExcerptsRemoved { ids } && ids@ == ids_of(
            before.snapshot.excerpts@,
        )
    }

    /// Removes all excerpts.
    pub fn clear(&mut self)
        requires
            old(self).wf(),
            old(self).snapshot.trailing_excerpt_update_count < usize::MAX,
        ensures
            final(self).wf(),
            final(self).has_cleared(old(self)),
    {
        let ghost before = *self;
        let ids = self.excerpt_ids();
        let prev_len: usize = self.snapshot.len();
        let ghost text = self.snapshot.bytes();
        self.buffers = Vec::new();
        self.snapshot.excerpts = Vec::new();
        self.snapshot.trailing_excerpt_update_count = self.snapshot.trailing_excerpt_update_count
            + 1;
        self.snapshot.is_dirty = false;
        self.snapshot.has_deleted_file = false;
        self.snapshot.has_conflict = false;
        let mut edits: Vec<Edit> = Vec::new();
        edits.push(Edit { old: 0..prev_len, new: 0..0 });
        proof {
            reveal(buffers_wf);
            assert(edits@ =~= seq![edits@[0]]);
            assert(text.skip(text.len() as int) =~= Seq::<u8>::empty().skip(0));
            assert(text.take(0) =~= Seq::<u8>::empty().take(0));
            lemma_patched_one(text, seq![], edits@[0]);
        }
        self.published.push(edits);
        self.events.push(
            Event::Edited { singleton_buffer_edited: false, edited_buffer: None },
        );
        self.events.push(Event::ExcerptsRemoved { ids });
        assert(self.published@.drop_last() =~= before.published@);
        assert(self.events@.take(before.events@.len() as int) =~= before.events@);
    }

    /// The identifiers of the excerpts, in order.
    pub fn excerpt_ids(&self) -> (r: Vec<ExcerptId>)
        ensures
            r@ == ids_of(self.snapshot.excerpts@),
    {
        let mut ids: Vec<ExcerptId> = Vec::new();
        let mut i: usize = 0;
        while i < self.snapshot.excerpts.len()
            invariant
                i <= self.snapshot.excerpts@.len(),
                ids@ == ids_of(self.snapshot.excerpts@).take(i as int),
            decreases self.snapshot.excerpts@.len() - i,
        {
            ids.push(self.snapshot.excerpts[i].id);
            assert(ids@ =~= ids_of(self.snapshot.excerpts@).take(i + 1));
            i = i + 1;
        }
        assert(ids@ =~= ids_of(self.snapshot.excerpts@));
        ids
    }
}

/// The identifiers of excerpts.
pub open spec fn ids_of(es: Seq<Excerpt>) -> Seq<ExcerptId> {
    es.map_values(|e: Excerpt| e.id)
}

} // verus!
