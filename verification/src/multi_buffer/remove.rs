//! Removing excerpts.

use std::ops::Range;
use vstd::prelude::*;

use crate::buffer::BufferId;
use crate::excerpt::{
    excerpt_start, excerpts_text, lemma_excerpts_text_concat, lemma_excerpts_text_split,
    lemma_excerpts_text_step, Excerpt, ExcerptId,
};
use crate::locator::{digits_before, lemma_order_strict, Locator};
use crate::multi_buffer::insert::with_last_newline;
use crate::multi_buffer::{
    buffers_wf, digits_of, has_state, lemma_locators_concat, lemma_locators_same, locators_of,
    state_fits, state_of, BufferState, Edit, Event, MultiBuffer,
};
use crate::snapshot::{excerpts_wf, is_mapped, maps, valid_locator, MultiBufferSnapshot};
use crate::text::{lemma_summary_sound, MAX_TEXT_LEN};

verus! {

/// How far the removal of excerpts has come: what remains of the excerpts
/// before the `at`-th, and the edits so far.
#[verifier::ext_equal]
pub struct Removal {
    pub kept: Seq<Excerpt>,
    pub edits: Seq<Edit>,
    pub at: int,
}

impl MultiBufferSnapshot {
    /// How many excerpts in a row go, from the `i`-th on, when the `k`-th of the
    /// identifiers names it: as many as the identifiers name one after the
    /// other.
    pub open spec fn run_len(&self, ids: Seq<ExcerptId>, i: int, k: int) -> int
        decreases ids.len() - k,
    {
        if k + 1 < ids.len() && i + 1 < self.excerpts@.len() && self.excerpts@[i + 1].locator@
            == self.locator_for(ids[k + 1]) {
            1 + self.run_len(ids, i + 1, k + 1)
        } else {
            1
        }
    }

    /// The excerpt at which the removal looks for the `k`-th identifier.
    pub open spec fn removal_index(&self, ids: Seq<ExcerptId>, k: int, at: int) -> int {
        if self.index_for(ids[k]) >= at {
            self.index_for(ids[k])
        } else {
            at
        }
    }

    /// The removal of the excerpts that the identifiers from the `k`-th on name.
    /// Each run of them gives one edit. Where a run ends the text, the line break
    /// before it goes too.
    pub open spec fn removal(&self, ids: Seq<ExcerptId>, k: int, done: Removal) -> Removal
        decreases ids.len() - k,
    {
        let es = self.excerpts@;
        let i = self.removal_index(ids, k, done.at);
        let kept = done.kept + es.subrange(done.at, i);
        if k >= ids.len() {
            done
        } else if i < es.len() && es[i].id == ids[k] {
            let m = self.run_len(ids, i, k);
            if m <= 0 || k + m > ids.len() {
                done
            } else {
                let cuts_newline = i + m == es.len() && excerpt_start(es, i) > 0;
                let new_kept = if cuts_newline {
                    with_last_newline(kept, false)
                } else {
                    kept
                };
                let old_start = excerpt_start(es, i) - if cuts_newline {
                    1int
                } else {
                    0int
                };
                let new_start = excerpts_text(new_kept).len() as usize;
                self.removal(
                    ids,
                    k + m,
                    Removal {
                        kept: new_kept,
                        edits: done.edits.push(
                            Edit {
                                old: Range {
                                    start: old_start as usize,
                                    end: excerpt_start(es, i + m) as usize,
                                },
                                new: Range { start: new_start, end: new_start },
                            },
                        ),
                        at: i + m,
                    },
                )
            }
        } else {
            self.removal(ids, k + 1, Removal { kept, edits: done.edits, at: i })
        }
    }

    /// The removal of the excerpts that identifiers name.
    pub open spec fn removal_of(&self, ids: Seq<ExcerptId>) -> Removal {
        self.removal(ids, 0, Removal { kept: seq![], edits: seq![], at: 0 })
    }

    /// What remains of the excerpts.
    pub open spec fn remaining(&self, ids: Seq<ExcerptId>) -> Seq<Excerpt> {
        self.removal_of(ids).kept + self.excerpts@.skip(self.removal_of(ids).at)
    }

    pub proof fn lemma_run_len(&self, ids: Seq<ExcerptId>, i: int, k: int)
        requires
            0 <= i < self.excerpts@.len(),
            0 <= k < ids.len(),
        ensures
            1 <= self.run_len(ids, i, k),
            i + self.run_len(ids, i, k) <= self.excerpts@.len(),
            k + self.run_len(ids, i, k) <= ids.len(),
        decreases ids.len() - k,
    {
        if k + 1 < ids.len() && i + 1 < self.excerpts@.len() && self.excerpts@[i + 1].locator@
            == self.locator_for(ids[k + 1]) {
            self.lemma_run_len(ids, i + 1, k + 1);
        }
    }
}

/// Taking out one excerpt keeps the others well-formed, once the last has no
/// line break behind it.
pub proof fn lemma_remove_one_wf(a: Seq<Excerpt>, e: Excerpt, b: Seq<Excerpt>)
    requires
        excerpts_wf(with_last_newline(a + seq![e] + b, false)),
    ensures
        excerpts_wf(with_last_newline(a + b, false)),
        excerpts_text(with_last_newline(a + b, false)).len() <= excerpts_text(
            with_last_newline(a + seq![e] + b, false),
        ).len(),
{
    let before = a + seq![e] + b;
    let before_cut = with_last_newline(before, false);
    let after = a + b;
    let after_cut = with_last_newline(after, false);
    let n = a.len() as int;
    if after.len() > 0 {
        assert forall|i: int| 0 <= i < after.len() implies ({
            let j = if i < n {
                i
            } else {
                i + 1
            };
            (#[trigger] after_cut[i]).with_newline(before_cut[j].has_trailing_newline)
                == before_cut[j]
        }) by {}
        assert forall|i: int| 0 <= i < after.len() implies (#[trigger] after_cut[i]).wf()
            && after_cut[i].has_trailing_newline == (i < after_cut.len() - 1) && valid_locator(
            after_cut[i].locator@,
        ) by {
            let j = if i < n {
                i
            } else {
                i + 1
            };
            let f = before_cut[j];
            assert(f.wf() && valid_locator(f.locator@));
            assert(after_cut[i].with_newline(f.has_trailing_newline) == f);
            assert(after_cut[i].bytes() == f.bytes());
        }
        assert forall|i: int, j: int| 0 <= i < j < after_cut.len() implies digits_before(
            (#[trigger] after_cut[i]).locator@,
            (#[trigger] after_cut[j]).locator@,
        ) by {
            let i2 = if i < n {
                i
            } else {
                i + 1
            };
            let j2 = if j < n {
                j
            } else {
                j + 1
            };
            assert(digits_before(before_cut[i2].locator@, before_cut[j2].locator@));
        }
        lemma_remove_one_len(a, e, b);
    }
}

/// Taking out one excerpt makes the text no longer.
proof fn lemma_remove_one_len(a: Seq<Excerpt>, e: Excerpt, b: Seq<Excerpt>)
    ensures
        excerpts_text(with_last_newline(a + b, false)).len() <= excerpts_text(
            with_last_newline(a + seq![e] + b, false),
        ).len(),
{
    let after = a + b;
    let before = a + seq![e] + b;
    if b.len() > 0 {
        let cut = with_last_newline(b, false);
        assert(with_last_newline(after, false) =~= a + cut);
        assert(with_last_newline(before, false) =~= a + seq![e] + cut);
        lemma_excerpts_text_concat(a, cut);
        lemma_excerpts_text_concat(a + seq![e], cut);
        lemma_excerpts_text_concat(a, seq![e]);
    } else {
        assert(after =~= a);
        let e_cut = e.with_newline(false);
        assert(with_last_newline(before, false) =~= a + seq![e_cut]);
        lemma_excerpts_text_concat(a, seq![e_cut]);
        if a.len() > 0 {
            let a_cut = with_last_newline(a, false);
            assert(a_cut.drop_last() =~= a.drop_last());
            assert(a_cut.last().bytes() == a.last().bytes());
        }
    }
}

/// The line break behind the last excerpt does not matter to the states of the
/// buffers.
pub proof fn lemma_newline_buffers(es: Seq<Excerpt>, present: bool, states: Seq<BufferState>)
    requires
        buffers_wf(es, states),
    ensures
        buffers_wf(with_last_newline(es, present), states),
{
    reveal(buffers_wf);
    let cut = with_last_newline(es, present);
    assert forall|s: int| 0 <= s < states.len() implies state_fits(
        cut,
        #[trigger] states[s],
    ) by {
        assert(state_fits(es, states[s]));
        lemma_locators_same(cut, es, states[s].buffer.remote_id);
    }
    assert forall|i: int| 0 <= i < cut.len() implies has_state(states, #[trigger] cut[i]) by {
        assert(has_state(states, es[i]));
        let s = choose|s: int| state_of(states, s, es[i]);
        assert(state_of(states, s, cut[i]));
    }
}

/// Locators of excerpts that stand before or behind a place are not that place.
proof fn lemma_locators_differ(es: Seq<Excerpt>, buffer_id: BufferId, place: Seq<u64>)
    requires
        forall|i: int| 0 <= i < es.len() ==> (#[trigger] es[i]).locator@ != place,
    ensures
        forall|k: int|
            0 <= k < locators_of(es, buffer_id).len() ==> #[trigger] locators_of(
                es,
                buffer_id,
            )[k] != place,
    decreases es.len(),
{
    if es.len() > 0 {
        assert(es[es.len() - 1].locator@ != place);
        lemma_locators_differ(es.drop_last(), buffer_id, place);
        let front = locators_of(es.drop_last(), buffer_id);
        let all = locators_of(es, buffer_id);
        assert forall|k: int| 0 <= k < all.len() implies #[trigger] all[k] != place by {
            if k < front.len() {
                assert(all[k] == front[k]);
            }
        }
    }
}

/// `places` without `place`.
pub open spec fn without(places: Seq<Seq<u64>>, place: Seq<u64>) -> Seq<Seq<u64>>
    decreases places.len(),
{
    if places.len() == 0 {
        seq![]
    } else if places.last() == place {
        without(places.drop_last(), place)
    } else {
        without(places.drop_last(), place).push(places.last())
    }
}

proof fn lemma_without_concat(a: Seq<Seq<u64>>, b: Seq<Seq<u64>>, place: Seq<u64>)
    ensures
        without(a + b, place) == without(a, place) + without(b, place),
    decreases b.len(),
{
    if b.len() == 0 {
        assert(a + b =~= a);
        assert(without(a, place) + without(b, place) =~= without(a, place));
    } else {
        lemma_without_concat(a, b.drop_last(), place);
        assert((a + b).drop_last() =~= a + b.drop_last());
        assert(without(a + b, place) =~= without(a, place) + without(b, place));
    }
}

proof fn lemma_without_none(a: Seq<Seq<u64>>, place: Seq<u64>)
    requires
        forall|k: int| 0 <= k < a.len() ==> #[trigger] a[k] != place,
    ensures
        without(a, place) == a,
    decreases a.len(),
{
    if a.len() > 0 {
        assert(a.last() != place);
        lemma_without_none(a.drop_last(), place);
        assert(without(a, place) =~= a);
    }
}

/// The places of the other excerpts of a buffer.
proof fn lemma_locators_without(
    a: Seq<Excerpt>,
    e: Excerpt,
    b: Seq<Excerpt>,
    buffer_id: BufferId,
)
    requires
        excerpts_wf(with_last_newline(a + seq![e] + b, false)),
    ensures
        without(locators_of(a + seq![e] + b, buffer_id), e.locator@) == locators_of(
            a + b,
            buffer_id,
        ),
        e.buffer_id != buffer_id ==> locators_of(a + seq![e] + b, buffer_id) == locators_of(
            a + b,
            buffer_id,
        ),
{
    reveal_with_fuel(locators_of, 2);
    reveal_with_fuel(without, 2);
    let all = a + seq![e] + b;
    let cut = with_last_newline(all, false);
    let n = a.len() as int;
    lemma_locators_concat(a, seq![e], buffer_id);
    lemma_locators_concat(a + seq![e], b, buffer_id);
    lemma_locators_concat(a, b, buffer_id);
    assert(seq![e].drop_last() =~= Seq::<Excerpt>::empty());
    assert forall|i: int| 0 <= i < a.len() implies (#[trigger] a[i]).locator@ != e.locator@ by {
        assert(cut[i].locator@ == a[i].locator@);
        assert(cut[n].locator@ == e.locator@);
        lemma_order_strict(cut[i].locator@, cut[n].locator@);
    }
    assert forall|i: int| 0 <= i < b.len() implies (#[trigger] b[i]).locator@ != e.locator@ by {
        assert(cut[n + 1 + i].locator@ == b[i].locator@);
        assert(cut[n].locator@ == e.locator@);
        lemma_order_strict(cut[n].locator@, cut[n + 1 + i].locator@);
    }
    lemma_locators_differ(a, buffer_id, e.locator@);
    lemma_locators_differ(b, buffer_id, e.locator@);
    let la = locators_of(a, buffer_id);
    let le = locators_of(seq![e], buffer_id);
    let lb = locators_of(b, buffer_id);
    lemma_without_concat(la + le, lb, e.locator@);
    lemma_without_concat(la, le, e.locator@);
    lemma_without_none(la, e.locator@);
    lemma_without_none(lb, e.locator@);
    if e.buffer_id == buffer_id {
        assert(le =~= seq![e.locator@]);
        assert(le.drop_last() =~= Seq::<Seq<u64>>::empty());
    } else {
        assert(le =~= Seq::<Seq<u64>>::empty());
    }
    assert(without(le, e.locator@) =~= Seq::<Seq<u64>>::empty());
    assert(la + Seq::<Seq<u64>>::empty() + lb =~= la + lb);
    assert(la + Seq::<Seq<u64>>::empty() =~= la);
}

/// A buffer that has an excerpt has a place.
proof fn lemma_has_locator(es: Seq<Excerpt>, i: int)
    requires
        0 <= i < es.len(),
    ensures
        locators_of(es, es[i].buffer_id).len() > 0,
    decreases es.len(),
{
    if i < es.len() - 1 {
        lemma_has_locator(es.drop_last(), i);
    }
}

/// The states of the buffers fit once a place has been taken out of one.
proof fn lemma_remove_buffers(
    a: Seq<Excerpt>,
    e: Excerpt,
    b: Seq<Excerpt>,
    states: Seq<BufferState>,
    s: int,
    new_states: Seq<BufferState>,
)
    requires
        excerpts_wf(with_last_newline(a + seq![e] + b, false)),
        buffers_wf(a + seq![e] + b, states),
        state_of(states, s, e),
        e.buffer_id == e.buffer.remote_id,
        ({
            let places = without(digits_of(states[s].excerpts@), e.locator@);
            if places.len() > 0 {
                &&& new_states.len() == states.len()
                &&& new_states[s].buffer == states[s].buffer
                &&& digits_of(new_states[s].excerpts@) == places
                &&& forall|t: int|
                    0 <= t < states.len() && t != s ==> #[trigger] new_states[t] == states[t]
            } else {
                new_states == states.remove(s)
            }
        }),
    ensures
        buffers_wf(a + b, new_states),
{
    reveal(buffers_wf);
    let all = a + seq![e] + b;
    let rest = a + b;
    let n = a.len() as int;
    let places = without(digits_of(states[s].excerpts@), e.locator@);
    lemma_locators_without(a, e, b, e.buffer_id);
    assert(state_fits(all, states[s]));
    assert(places == locators_of(rest, e.buffer_id));
    let gone = places.len() == 0;
    assert forall|t: int| 0 <= t < new_states.len() implies state_fits(
        rest,
        #[trigger] new_states[t],
    ) by {
        let old_t = if gone && t >= s {
            t + 1
        } else {
            t
        };
        assert(state_fits(all, states[old_t]));
        if old_t != s {
            assert(new_states[t] == states[old_t]);
            lemma_locators_without(a, e, b, states[old_t].buffer.remote_id);
            if old_t < s {
                assert(states[old_t].buffer.remote_id != states[s].buffer.remote_id);
            } else {
                assert(states[s].buffer.remote_id != states[old_t].buffer.remote_id);
            }
        } else {
            assert(digits_of(new_states[t].excerpts@).len() == new_states[t].excerpts@.len());
        }
    }
    assert forall|x: int, y: int| 0 <= x < y < new_states.len() implies (
    #[trigger] new_states[x]).buffer.remote_id != (#[trigger] new_states[y]).buffer.remote_id by {
        let old_x = if gone && x >= s {
            x + 1
        } else {
            x
        };
        let old_y = if gone && y >= s {
            y + 1
        } else {
            y
        };
        assert(states[old_x].buffer.remote_id != states[old_y].buffer.remote_id);
    }
    assert forall|i: int| 0 <= i < rest.len() implies has_state(
        new_states,
        #[trigger] rest[i],
    ) by {
        let j = if i < n {
            i
        } else {
            i + 1
        };
        assert(rest[i] == all[j]);
        assert(has_state(states, all[j]));
        let t = choose|t: int| state_of(states, t, all[j]);
        if gone {
            if t == s {
                lemma_has_locator(rest, i);
                let cut = with_last_newline(all, false);
                assert(cut[j].wf());
            } else if t < s {
                assert(state_of(new_states, t, rest[i]));
            } else {
                assert(state_of(new_states, t - 1, rest[i]));
            }
        } else {
            assert(state_of(new_states, t, rest[i]));
        }
    }
}

impl MultiBuffer {
    /// Takes the place of an excerpt out of the state of its buffer, and the
    /// state with it where it was the last.
    fn forget_place(
        &mut self,
        buffer_id: BufferId,
        locator: &Locator,
        Ghost(a): Ghost<Seq<Excerpt>>,
        Ghost(e): Ghost<Excerpt>,
        Ghost(b): Ghost<Seq<Excerpt>>,
    )
        requires
            excerpts_wf(with_last_newline(a + seq![e] + b, false)),
            buffers_wf(a + seq![e] + b, old(self).buffers@),
            e.buffer_id == buffer_id,
            e.locator@ == locator@,
            e.buffer.remote_id == buffer_id,
        ensures
            buffers_wf(a + b, final(self).buffers@),
            final(self).snapshot == old(self).snapshot,
            final(self).same_but_excerpts(old(self)),
            final(self).published == old(self).published,
            final(self).events == old(self).events,
    {
        let ghost states = self.buffers@;
        let ghost all = a + seq![e] + b;
        proof {
            reveal(buffers_wf);
            assert(all[a.len() as int] == e);
            assert(has_state(states, all[a.len() as int]));
        }
        match self.buffer_state_index(buffer_id) {
            Some(s) => {
                let ghost places = digits_of(self.buffers@[s as int].excerpts@);
                proof {
                    let t = choose|t: int| state_of(states, t, e);
                    if t < s {
                        assert(states[t].buffer.remote_id != states[s as int].buffer.remote_id);
                    }
                    if s < t {
                        assert(states[s as int].buffer.remote_id != states[t].buffer.remote_id);
                    }
                    assert(state_of(states, s as int, e));
                }
                let mut kept: Vec<Locator> = Vec::new();
                let mut k: usize = 0;
                assert(places.take(0) =~= Seq::<Seq<u64>>::empty());
                assert(digits_of(kept@) =~= Seq::<Seq<u64>>::empty());
                while k < self.buffers[s].excerpts.len()
                    invariant
                        s < self.buffers@.len(),
                        self.buffers@ == states,
                        places == digits_of(self.buffers@[s as int].excerpts@),
                        k <= places.len(),
                        e.locator@ == locator@,
                        digits_of(kept@) == without(places.take(k as int), locator@),
                        self.snapshot == old(self).snapshot,
                        self.same_but_excerpts(old(self)),
                        self.published == old(self).published,
                        self.events == old(self).events,
                    decreases places.len() - k,
                {
                    proof {
                        assert(places.take(k + 1).drop_last() =~= places.take(k as int));
                        assert(places.take(k + 1).last()
                            == self.buffers@[s as int].excerpts@[k as int]@);
                    }
                    if !self.buffers[s].excerpts[k].equals(locator) {
                        let ghost before = kept@;
                        kept.push(self.buffers[s].excerpts[k].clone());
                        assert(digits_of(kept@) =~= digits_of(before).push(
                            places[k as int],
                        ));
                    }
                    k = k + 1;
                }
                assert(places.take(places.len() as int) =~= places);
                assert(digits_of(kept@).len() == kept@.len());
                if kept.len() == 0 {
                    let _ = self.buffers.remove(s);
                } else {
                    self.buffers[s].excerpts = kept;
                }
                proof {
                    lemma_remove_buffers(a, e, b, states, s as int, self.buffers@);
                }
            },
            None => {
                proof {
                    let t = choose|t: int| state_of(states, t, e);
                    assert(states[t].buffer.remote_id != buffer_id);
                }
            },
        }
    }
}

/// What holds of the excerpts while some are being removed: those that are kept
/// and those that were not looked at yet could stand alone.
#[verifier::opaque]
pub open spec fn removal_fits(
    snapshot: MultiBufferSnapshot,
    states: Seq<BufferState>,
    kept: Seq<Excerpt>,
    at: int,
) -> bool {
    let es = snapshot.excerpts@;
    let rest = kept + es.skip(at);
    &&& 0 <= at <= es.len()
    &&& kept.len() <= at
    &&& excerpts_wf(rest)
    &&& buffers_wf(rest, states)
    &&& forall|i: int|
        0 <= i < kept.len() ==> is_mapped(snapshot.excerpt_ids@, #[trigger] kept[i])
    &&& es.len() == 1 && kept.len() > 0 ==> kept[0].buffer == es[0].buffer && kept[0].range
        == es[0].range
}

/// The excerpts that are not removed are kept.
proof fn lemma_keep(
    snapshot: MultiBufferSnapshot,
    states: Seq<BufferState>,
    kept: Seq<Excerpt>,
    at: int,
)
    requires
        snapshot.wf(),
        removal_fits(snapshot, states, kept, at),
        at < snapshot.excerpts@.len(),
    ensures
        removal_fits(snapshot, states, kept.push(snapshot.excerpts@[at]), at + 1),
        excerpts_text(kept.push(snapshot.excerpts@[at])) == excerpts_text(kept)
            + snapshot.excerpts@[at].text(),
        excerpts_text(kept.push(snapshot.excerpts@[at])).len() <= MAX_TEXT_LEN,
{
    reveal(removal_fits);
    let es = snapshot.excerpts@;
    let grown = kept.push(es[at]);
    assert(grown + es.skip(at + 1) =~= kept + es.skip(at));
    assert(grown.drop_last() =~= kept);
    lemma_excerpts_text_concat(grown, es.skip(at + 1));
    assert forall|i: int| 0 <= i < grown.len() implies is_mapped(
        snapshot.excerpt_ids@,
        #[trigger] grown[i],
    ) by {
        if i < kept.len() {
            assert(grown[i] == kept[i]);
        } else {
            assert(is_mapped(snapshot.excerpt_ids@, es[at]));
        }
    }
}

/// What remains of the excerpts once a run of them is gone.
proof fn lemma_run_removed(
    snapshot: MultiBufferSnapshot,
    states: Seq<BufferState>,
    kept: Seq<Excerpt>,
    i: int,
    j: int,
)
    requires
        snapshot.wf(),
        0 <= i < j <= snapshot.excerpts@.len(),
        kept.len() <= i,
        excerpts_wf(with_last_newline(kept + snapshot.excerpts@.skip(j), false)),
        buffers_wf(kept + snapshot.excerpts@.skip(j), states),
        forall|x: int|
            0 <= x < kept.len() ==> is_mapped(snapshot.excerpt_ids@, #[trigger] kept[x]),
        forall|x: int| 0 <= x < kept.len() ==> (#[trigger] kept[x]).has_trailing_newline,
    ensures
        ({
            let cuts_newline = j == snapshot.excerpts@.len() && excerpt_start(
                snapshot.excerpts@,
                i,
            ) > 0;
            let new_kept = if cuts_newline {
                with_last_newline(kept, false)
            } else {
                kept
            };
            &&& removal_fits(snapshot, states, new_kept, j)
            &&& excerpts_text(new_kept).len() == excerpts_text(kept).len() - if cuts_newline
                && kept.len() > 0 {
                1int
            } else {
                0int
            }
            &&& excerpts_text(new_kept).len() <= MAX_TEXT_LEN
        }),
{
    reveal(removal_fits);
    let es = snapshot.excerpts@;
    let n = es.len() as int;
    let rest = kept + es.skip(j);
    let cuts_newline = j == n && excerpt_start(es, i) > 0;
    let new_kept = if cuts_newline {
        with_last_newline(kept, false)
    } else {
        kept
    };
    if j < n {
        assert(es[n - 1].has_trailing_newline == false);
        assert(rest.last() == es[n - 1]);
        assert(with_last_newline(rest, false) =~= rest);
        lemma_excerpts_text_concat(kept, es.skip(j));
    } else {
        assert(rest =~= kept);
        if i > 0 {
            lemma_excerpts_text_step(es, i - 1);
            assert(es[i - 1].has_trailing_newline);
            assert(es[i - 1].text().len() >= 1);
        } else {
            assert(kept.len() == 0);
            assert(es.take(0) =~= Seq::<Excerpt>::empty());
            assert(with_last_newline(rest, false) =~= rest);
        }
        assert(new_kept + es.skip(j) =~= with_last_newline(rest, false));
        lemma_newline_buffers(rest, false, states);
        if kept.len() > 0 {
            assert(kept[kept.len() - 1].has_trailing_newline);
            assert(new_kept.drop_last() =~= kept.drop_last());
            assert(new_kept.last().bytes() == kept.last().bytes());
        }
        assert(new_kept + es.skip(j) =~= new_kept);
    }
    assert forall|x: int| 0 <= x < new_kept.len() implies is_mapped(
        snapshot.excerpt_ids@,
        #[trigger] new_kept[x],
    ) by {
        assert(is_mapped(snapshot.excerpt_ids@, kept[x]));
        let k = choose|k: int| maps(snapshot.excerpt_ids@, k, kept[x]);
        assert(maps(snapshot.excerpt_ids@, k, new_kept[x]));
    }
}

impl MultiBufferSnapshot {
    /// Adds the excerpts from the `from`-th to before the `to`-th to those that
    /// are kept. Returns the length of their text.
    fn keep_excerpts(
        &self,
        kept: &mut Vec<Excerpt>,
        from: usize,
        to: usize,
        Ghost(states): Ghost<Seq<BufferState>>,
    ) -> (r: usize)
        requires
            self.wf(),
            from <= to <= self.excerpts@.len(),
            removal_fits(*self, states, old(kept)@, from as int),
        ensures
            final(kept)@ == old(kept)@ + self.excerpts@.subrange(from as int, to as int),
            removal_fits(*self, states, final(kept)@, to as int),
            excerpts_text(final(kept)@).len() == excerpts_text(old(kept)@).len() + r,
            excerpts_text(final(kept)@).len() <= MAX_TEXT_LEN,
    {
        let ghost es = self.excerpts@;
        let ghost before = kept@;
        let mut len: usize = 0;
        let mut at: usize = from;
        proof {
            assert(before + es.subrange(from as int, from as int) =~= before);
            lemma_kept_len(*self, states, before, from as int);
        }
        while at < to
            invariant
                self.wf(),
                es == self.excerpts@,
                from <= at <= to <= es.len(),
                removal_fits(*self, states, kept@, at as int),
                excerpts_text(kept@).len() == excerpts_text(before).len() + len,
                excerpts_text(kept@).len() <= MAX_TEXT_LEN,
                kept@ == before + es.subrange(from as int, at as int),
            decreases to - at,
        {
            proof {
                lemma_keep(*self, states, kept@, at as int);
                assert(kept@.push(es[at as int]) =~= before + es.subrange(from as int, at + 1));
                assert(es[at as int].wf());
                lemma_summary_sound(es[at as int].bytes());
            }
            let excerpt = self.excerpts[at].clone();
            len = len + excerpt.text_summary.len + if excerpt.has_trailing_newline {
                1
            } else {
                0
            };
            kept.push(excerpt);
            at = at + 1;
        }
        len
    }
}

/// What is kept is not longer than what there was.
proof fn lemma_kept_len(
    snapshot: MultiBufferSnapshot,
    states: Seq<BufferState>,
    kept: Seq<Excerpt>,
    at: int,
)
    requires
        removal_fits(snapshot, states, kept, at),
    ensures
        excerpts_text(kept).len() <= MAX_TEXT_LEN,
        0 <= at <= snapshot.excerpts@.len(),
        at < snapshot.excerpts@.len() ==> forall|x: int|
            0 <= x < kept.len() ==> (#[trigger] kept[x]).has_trailing_newline,
        kept.len() <= at,
        forall|x: int|
            0 <= x < kept.len() ==> is_mapped(snapshot.excerpt_ids@, #[trigger] kept[x]),
{
    reveal(removal_fits);
    let es = snapshot.excerpts@;
    let rest = kept + es.skip(at);
    lemma_excerpts_text_concat(kept, es.skip(at));
    if at < es.len() {
        assert forall|x: int| 0 <= x < kept.len() implies (
        #[trigger] kept[x]).has_trailing_newline by {
            assert(rest[x] == kept[x]);
        }
    }
}

/// Once all excerpts have been looked at, the multibuffer is well-formed.
proof fn lemma_removed(
    snapshot: MultiBufferSnapshot,
    states: Seq<BufferState>,
    kept: Seq<Excerpt>,
)
    requires
        removal_fits(snapshot, states, kept, snapshot.excerpts@.len() as int),
    ensures
        excerpts_wf(kept),
        buffers_wf(kept, states),
        kept.len() <= snapshot.excerpts@.len(),
        forall|x: int|
            0 <= x < kept.len() ==> is_mapped(snapshot.excerpt_ids@, #[trigger] kept[x]),
        snapshot.excerpts@.len() == 1 && kept.len() > 0 ==> kept[0].buffer
            == snapshot.excerpts@[0].buffer && kept[0].range == snapshot.excerpts@[0].range,
{
    reveal(removal_fits);
    assert(kept + snapshot.excerpts@.skip(snapshot.excerpts@.len() as int) =~= kept);
}

impl MultiBuffer {
    /// Whether excerpts can be removed: their identifiers are known, and stand in
    /// the order of the excerpts.
    pub open spec fn can_remove(&self, ids: Seq<ExcerptId>) -> bool {
        &&& forall|k: int| 0 <= k < ids.len() ==> self.snapshot.knows_id(#[trigger] ids[k])
        &&& forall|k: int, l: int|
            0 <= k < l < ids.len() ==> !digits_before(
                self.snapshot.locator_for(#[trigger] ids[l]),
                self.snapshot.locator_for(#[trigger] ids[k]),
            )
        &&& self.snapshot.trailing_excerpt_update_count < usize::MAX
    }

    /// Whether `self` is `before` with excerpts removed.
    pub open spec fn has_removed(&self, before: &MultiBuffer, ids: Seq<ExcerptId>) -> bool {
        let removal = before.snapshot.removal_of(ids);
        if ids.len() == 0 {
            *self == *before
        } else {
            &&& self.snapshot.excerpts@ == before.snapshot.remaining(ids)
            &&& self.snapshot.excerpt_ids@ == before.snapshot.excerpt_ids@
            &&& self.snapshot.trailing_excerpt_update_count
                == before.snapshot.trailing_excerpt_update_count + if removal.at
                == before.snapshot.excerpts@.len() {
                1int
            } else {
                0int
            }
            &&& self.snapshot.same_but_trailing(&before.snapshot)
            &&& self.same_but_excerpts(before)
            &&& self.published_on(before, removal.edits)
            &&& self.events@.len() == before.events@.len() + 2
            &&& self.events@.take(before.events@.len() as int) == before.events@
            &&& self.events@[before.events@.len() as int] == (Event::Edited {
                singleton_buffer_edited: false,
                edited_buffer: None,
            })
            &&& self.events@.last() matches Event::ExcerptsRemoved { ids: removed } && removed@
                == ids
        }
    }

    /// Removes the run of excerpts that starts with the `i`-th, which the `k`-th
    /// of the identifiers names, from the states of the buffers. Returns the
    /// end of the run.
    fn forget_run(
        &mut self,
        ids: &Vec<ExcerptId>,
        k: usize,
        i: usize,
        Ghost(kept): Ghost<Seq<Excerpt>>,
    ) -> (r: usize)
        requires
            old(self).snapshot.wf(),
            k < ids@.len(),
            i < old(self).snapshot.excerpts@.len(),
            removal_fits(old(self).snapshot, old(self).buffers@, kept, i as int),
        ensures
            r == i + final(self).snapshot.run_len(ids@, i as int, k as int),
            r <= final(self).snapshot.excerpts@.len(),
            r - i <= ids@.len() - k,
            r > i,
            excerpts_wf(
                with_last_newline(kept + final(self).snapshot.excerpts@.skip(r as int), false),
            ),
            buffers_wf(
                kept + final(self).snapshot.excerpts@.skip(r as int),
                final(self).buffers@,
            ),
            final(self).snapshot == old(self).snapshot,
            final(self).same_but_excerpts(old(self)),
            final(self).published == old(self).published,
            final(self).events == old(self).events,
    {
        let ghost es = self.snapshot.excerpts@;
        let mut j: usize = i;
        let mut at: usize = k;
        let mut goes_on: bool = true;
        proof {
            reveal(removal_fits);
            self.snapshot.lemma_run_len(ids@, i as int, k as int);
            let rest = kept + es.skip(i as int);
            assert(rest.last() == es[es.len() - 1]);
            assert(with_last_newline(rest, false) =~= rest);
        }
        while goes_on
            invariant
                self.snapshot == old(self).snapshot,
                self.snapshot.wf(),
                es == self.snapshot.excerpts@,
                self.same_but_excerpts(old(self)),
                self.published == old(self).published,
                self.events == old(self).events,
                i <= j <= es.len(),
                k <= at <= ids@.len(),
                j - i == at - k,
                goes_on ==> j < es.len() && at < ids@.len() && self.snapshot.run_len(
                    ids@,
                    i as int,
                    k as int,
                ) == (j - i) + self.snapshot.run_len(ids@, j as int, at as int),
                !goes_on ==> j > i && self.snapshot.run_len(ids@, i as int, k as int) == j - i,
                excerpts_wf(with_last_newline(kept + es.skip(j as int), false)),
                buffers_wf(kept + es.skip(j as int), self.buffers@),
            decreases
                es.len() - j,
                (if goes_on {
                    1int
                } else {
                    0int
                }),
        {
            let excerpt = &self.snapshot.excerpts[j];
            let buffer_id = excerpt.buffer_id;
            let locator = excerpt.locator.clone();
            proof {
                assert(kept + es.skip(j as int) =~= kept + seq![es[j as int]] + es.skip(j + 1));
                assert(es[j as int].wf());
                lemma_remove_one_wf(kept, es[j as int], es.skip(j + 1));
            }
            self.forget_place(
                buffer_id,
                &locator,
                Ghost(kept),
                Ghost(es[j as int]),
                Ghost(es.skip(j + 1)),
            );
            assert(j < self.snapshot.excerpts.len() && at < ids.len());
            j = j + 1;
            at = at + 1;
            goes_on = false;
            if at < ids.len() && j < self.snapshot.excerpts.len() {
                let next_locator = self.snapshot.place_for_id(ids[at]);
                if self.snapshot.excerpts[j].locator.equals(&next_locator) {
                    goes_on = true;
                }
            }
        }
        j
    }

    /// Removes the excerpts that identifiers name. Identifiers of excerpts that
    /// are gone already are skipped.
    #[verifier::rlimit(40)]
    pub fn remove_excerpts(&mut self, excerpt_ids: Vec<ExcerptId>)
        requires
            old(self).wf(),
            old(self).can_remove(excerpt_ids@),
        ensures
            final(self).wf(),
            final(self).has_removed(old(self), excerpt_ids@),
    {
        if excerpt_ids.len() == 0 {
            return ;
        }
        let ghost before = *self;
        let ghost es = self.snapshot.excerpts@;
        let ghost ids = excerpt_ids@;
        let mut kept: Vec<Excerpt> = Vec::new();
        let mut kept_len: usize = 0;
        let mut edits: Vec<Edit> = Vec::new();
        let mut at: usize = 0;
        let mut k: usize = 0;
        proof {
            assert(removal_fits(self.snapshot, self.buffers@, kept@, 0)) by {
                reveal(removal_fits);
                assert(kept@ + es.skip(0) =~= es);
            }
            assert((Removal { kept: kept@, edits: edits@, at: at as int }) =~= (Removal {
                kept: seq![],
                edits: seq![],
                at: 0,
            }));
        }
        while k < excerpt_ids.len()
            invariant
                before.wf(),
                self.snapshot == before.snapshot,
                es == self.snapshot.excerpts@,
                ids == excerpt_ids@,
                self.same_but_excerpts(&before),
                self.published == before.published,
                self.events == before.events,
                k <= ids.len(),
                removal_fits(self.snapshot, self.buffers@, kept@, at as int),
                at <= es.len(),
                kept_len == excerpts_text(kept@).len(),
                before.snapshot.removal_of(ids) == before.snapshot.removal(
                    ids,
                    k as int,
                    Removal { kept: kept@, edits: edits@, at: at as int },
                ),
            decreases ids.len() - k,
        {
            let ghost done = Removal { kept: kept@, edits: edits@, at: at as int };
            let found: usize = self.snapshot.index_for_id(excerpt_ids[k]);
            let i: usize = if found >= at {
                found
            } else {
                at
            };
            let added: usize = self.snapshot.keep_excerpts(
                &mut kept,
                at,
                i,
                Ghost(self.buffers@),
            );
            kept_len = kept_len + added;
            at = i;
            proof {
                lemma_kept_len(self.snapshot, self.buffers@, kept@, i as int);
            }
            if i < self.snapshot.excerpts.len() && self.snapshot.excerpts[i].id
                == excerpt_ids[k] {
                let cursor = self.snapshot.cursor_at(i);
                let mut old_start: usize = cursor.start.len;
                proof {
                    self.snapshot.lemma_run_len(ids, i as int, k as int);
                }
                let end: usize = self.forget_run(&excerpt_ids, k, i, Ghost(kept@));
                proof {
                    lemma_run_removed(
                        self.snapshot,
                        self.buffers@,
                        kept@,
                        i as int,
                        end as int,
                    );
                    lemma_excerpts_text_split(es, i as int);
                    lemma_excerpts_text_split(es, end as int);
                }
                let ghost kept_run = kept@;
                if end == self.snapshot.excerpts.len() && old_start > 0 {
                    old_start = old_start - 1;
                    let count: usize = kept.len();
                    if count > 0 {
                        kept[count - 1].has_trailing_newline = false;
                        kept_len = kept_len - 1;
                    }
                    assert(kept@ =~= with_last_newline(kept_run, false));
                }
                let end_cursor = self.snapshot.cursor_at(end);
                edits.push(
                    Edit {
                        old: old_start..end_cursor.start.len,
                        new: kept_len..kept_len,
                    },
                );
                at = end;
                k = k + (end - i);
            } else {
                k = k + 1;
            }
        }
        let n: usize = self.snapshot.excerpts.len();
        let changed_trailing_excerpt: bool = at == n;
        let ghost removal = before.snapshot.removal_of(ids);
        assert(removal == (Removal { kept: kept@, edits: edits@, at: at as int }));
        let _ = self.snapshot.keep_excerpts(&mut kept, at, n, Ghost(self.buffers@));
        proof {
            lemma_removed(self.snapshot, self.buffers@, kept@);
            assert(es.subrange(at as int, n as int) =~= es.skip(at as int));
        }
        self.snapshot.excerpts = kept;
        if changed_trailing_excerpt {
            self.snapshot.trailing_excerpt_update_count =
                self.snapshot.trailing_excerpt_update_count + 1;
        }
        self.published.push(edits);
        self.events.push(
            Event::Edited { singleton_buffer_edited: false, edited_buffer: None },
        );
        self.events.push(Event::ExcerptsRemoved { ids: excerpt_ids });
        assert(self.published@.drop_last() =~= before.published@);
        assert(self.events@.take(before.events@.len() as int) =~= before.events@);
    }
}

} // verus!
