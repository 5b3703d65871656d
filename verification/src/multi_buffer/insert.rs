//! Adding excerpts.

use std::ops::Range;
use std::sync::Arc;
use vstd::prelude::*;

use crate::anchor::Anchor;
use crate::buffer::{resolved, BufferId, BufferSnapshot, TextAnchor, ToBufferOffset, ToBufferPoint};
use crate::excerpt::{
    excerpt_start, excerpts_text, lemma_excerpt_position, lemma_excerpts_text_concat,
    lemma_excerpts_text_split, Excerpt, ExcerptId, ExcerptRange,
};
use crate::excerpt_ranges::{
    build_excerpt_ranges, groups_of, lemma_groups, points_of, stretches_for, Group,
};
use crate::locator::{
    digits_before, digits_between, ends_nonzero, lemma_order_transitive, smaller_at, Locator,
};
use crate::multi_buffer::{
    buffers_wf, digits_of, has_state, lemma_locators_concat, lemma_locators_same, lemma_patched_one,
    locators_of, patched, state_fits, state_of, BufferState, Edit, Event, MultiBuffer,
};
use crate::shared::share;
use crate::snapshot::ids::{lemma_locator_index, locator_index};
use crate::snapshot::round_trips::{joined_by_newlines, lemma_text_is_joined};
use crate::snapshot::{
    excerpt_ids_wf, excerpts_wf, is_mapped, maps, valid_locator, ExcerptIdMapping,
    MultiBufferSnapshot,
};
use crate::text::{is_boundary, lemma_summary_sound, point_at, Bias, MAX_TEXT_LEN};

verus! {

/// A stretch of a buffer, held by anchors that let it grow.
pub open spec fn anchored<O: ToBufferOffset>(
    range: ExcerptRange<O>,
    buffer: BufferSnapshot,
) -> ExcerptRange<TextAnchor> {
    ExcerptRange {
        context: Range {
            start: buffer.anchor_spec(range.context.start.offset_in(buffer), Bias::Left),
            end: buffer.anchor_spec(range.context.end.offset_in(buffer), Bias::Right),
        },
        primary: match range.primary {
            Some(primary) => Some(
                Range {
                    start: buffer.anchor_spec(primary.start.offset_in(buffer), Bias::Left),
                    end: buffer.anchor_spec(primary.end.offset_in(buffer), Bias::Right),
                },
            ),
            None => None,
        },
    }
}

/// Whether a stretch of a buffer can be shown.
pub open spec fn showable<O: ToBufferOffset>(
    range: ExcerptRange<O>,
    buffer: BufferSnapshot,
) -> bool {
    &&& range.context.start.is_in(buffer)
    &&& range.context.end.is_in(buffer)
    &&& 0 <= range.context.start.offset_in(buffer) <= range.context.end.offset_in(buffer)
        <= buffer.bytes().len()
    &&& is_boundary(buffer.bytes(), range.context.start.offset_in(buffer))
    &&& is_boundary(buffer.bytes(), range.context.end.offset_in(buffer))
    &&& range.primary matches Some(primary) ==> primary.start.is_in(buffer)
        && primary.end.is_in(buffer)
}

/// How much room several stretches take at most.
pub open spec fn room_for<O: ToBufferOffset>(
    ranges: Seq<(ExcerptId, ExcerptRange<O>)>,
    buffer: BufferSnapshot,
) -> int
    decreases ranges.len(),
{
    if ranges.len() == 0 {
        0
    } else {
        let context = ranges.last().1.context;
        room_for(ranges.drop_last(), buffer) + context.end.offset_in(buffer)
            - context.start.offset_in(buffer) + 1
    }
}

/// The places of `n` excerpts between two others, each behind the one before.
pub open spec fn places_between(prev: Seq<u64>, next: Seq<u64>, n: int) -> Seq<Seq<u64>>
    decreases n,
{
    if n <= 0 {
        seq![]
    } else {
        let before = places_between(prev, next, n - 1);
        before.push(
            digits_between(
                if before.len() == 0 {
                    prev
                } else {
                    before.last()
                },
                next,
                0,
            ),
        )
    }
}

/// The excerpts with a line break behind the last one.
pub open spec fn with_last_newline(es: Seq<Excerpt>, present: bool) -> Seq<Excerpt> {
    if es.len() == 0 {
        es
    } else {
        es.update(es.len() - 1, es.last().with_newline(present))
    }
}

/// The excerpts with others put in behind the first `p`.
#[verifier::opaque]
pub open spec fn spliced(es: Seq<Excerpt>, p: int, news: Seq<Excerpt>) -> Seq<Excerpt> {
    with_last_newline(es.take(p), true) + news + es.skip(p)
}

/// Where the text of excerpts that are put in behind the first `p` ends.
pub open spec fn spliced_end(es: Seq<Excerpt>, p: int, news: Seq<Excerpt>) -> int {
    excerpt_start(es, p) + excerpts_text(news).len() + if p == es.len() && p > 0 {
        1int
    } else {
        0int
    }
}

/// Whether `e` is the `k`-th of the excerpts that show the ranges between
/// `prev` and `next`.
pub open spec fn is_new_excerpt<O: ToBufferOffset>(
    e: Excerpt,
    k: int,
    ranges: Seq<(ExcerptId, ExcerptRange<O>)>,
    buffer: Arc<BufferSnapshot>,
    prev: Seq<u64>,
    next: Seq<u64>,
    is_followed: bool,
) -> bool {
    &&& e.wf()
    &&& e.id == ranges[k].0
    &&& e.locator@ == places_between(prev, next, k + 1).last()
    &&& e.buffer_id == buffer.remote_id
    &&& e.buffer == buffer
    &&& e.range == anchored(ranges[k].1, *buffer)
    &&& e.has_trailing_newline == (k < ranges.len() - 1 || is_followed)
}

/// The place before the `p`-th excerpt.
pub open spec fn place_before(es: Seq<Excerpt>, p: int) -> Seq<u64> {
    if p > 0 {
        es[p - 1].locator@
    } else {
        seq![0u64]
    }
}

/// The place of the `p`-th excerpt, or the place behind all.
pub open spec fn place_at(es: Seq<Excerpt>, p: int) -> Seq<u64> {
    if p < es.len() {
        es[p].locator@
    } else {
        seq![u64::MAX]
    }
}

pub proof fn lemma_places(es: Seq<Excerpt>, p: int)
    requires
        excerpts_wf(es),
        0 <= p <= es.len(),
    ensures
        digits_before(place_before(es, p), place_at(es, p)),
        ends_nonzero(place_at(es, p)),
        p == 0 || valid_locator(place_before(es, p)),
        p == es.len() || valid_locator(place_at(es, p)),
        digits_before(seq![0u64], seq![u64::MAX]),
{
    assert(digits_before(seq![0u64], seq![u64::MAX])) by {
        reveal(digits_before);
        assert(smaller_at(seq![0u64], seq![u64::MAX], 0));
    }
    if p > 0 {
        assert(valid_locator(es[p - 1].locator@));
    }
    if p < es.len() {
        assert(valid_locator(es[p].locator@));
    }
}

/// A place between an excerpt and the next can belong to an excerpt.
pub proof fn lemma_valid_between(es: Seq<Excerpt>, p: int, locator: Seq<u64>)
    requires
        excerpts_wf(es),
        0 <= p <= es.len(),
        digits_before(place_before(es, p), locator),
        digits_before(locator, place_at(es, p)),
        ends_nonzero(locator),
    ensures
        valid_locator(locator),
        forall|i: int| 0 <= i < p ==> digits_before(#[trigger] es[i].locator@, locator),
        forall|i: int| p <= i < es.len() ==> digits_before(locator, #[trigger] es[i].locator@),
{
    lemma_places(es, p);
    if p > 0 {
        lemma_order_transitive(seq![0u64], place_before(es, p), locator);
    }
    if p < es.len() {
        lemma_order_transitive(locator, place_at(es, p), seq![u64::MAX]);
    }
    assert forall|i: int| 0 <= i < p implies digits_before(
        #[trigger] es[i].locator@,
        locator,
    ) by {
        if i < p - 1 {
            lemma_order_transitive(es[i].locator@, es[p - 1].locator@, locator);
        }
    }
    assert forall|i: int| p <= i < es.len() implies digits_before(
        locator,
        #[trigger] es[i].locator@,
    ) by {
        if p < i {
            lemma_order_transitive(locator, es[p].locator@, es[i].locator@);
        }
    }
}

/// A line break behind the last of the excerpts before another.
pub proof fn lemma_with_last_newline(es: Seq<Excerpt>, p: int)
    requires
        excerpts_wf(es),
        0 <= p <= es.len(),
    ensures
        ({
            let prefix = with_last_newline(es.take(p), true);
            let before = excerpts_text(es.take(p));
            &&& prefix.len() == p
            &&& forall|i: int|
                0 <= i < p ==> (#[trigger] prefix[i]).wf() && prefix[i].has_trailing_newline
                    && prefix[i].id == es[i].id && prefix[i].locator == es[i].locator
                    && prefix[i].buffer == es[i].buffer && prefix[i].buffer_id
                    == es[i].buffer_id
            &&& p == es.len() && p > 0 ==> excerpts_text(prefix) == before.push(10u8)
            &&& p < es.len() || p == 0 ==> prefix == es.take(p) && excerpts_text(prefix)
                == before
        }),
{
    let head = es.take(p);
    let prefix = with_last_newline(head, true);
    assert forall|i: int| 0 <= i < p implies (#[trigger] prefix[i]).wf()
        && prefix[i].has_trailing_newline && prefix[i].id == es[i].id && prefix[i].locator
        == es[i].locator && prefix[i].buffer == es[i].buffer && prefix[i].buffer_id
        == es[i].buffer_id by {
        assert(es[i].wf());
        if i == p - 1 {
            assert(prefix[i].bytes() == es[i].bytes());
        }
    }
    if p > 0 {
        assert(prefix.drop_last() =~= head.drop_last());
        assert(es[p - 1].has_trailing_newline == (p - 1 < es.len() - 1));
        assert(prefix.last().bytes() == head.last().bytes());
        if p == es.len() {
            assert(excerpts_text(prefix) =~= excerpts_text(head).push(10u8));
        } else {
            assert(prefix =~= head);
        }
    }
}

/// Putting excerpts between two others keeps the excerpts well-formed.
pub proof fn lemma_insert_wf(es: Seq<Excerpt>, p: int, news: Seq<Excerpt>)
    requires
        excerpts_wf(es),
        0 <= p <= es.len(),
        news.len() > 0,
        forall|k: int|
            0 <= k < news.len() ==> {
                &&& (#[trigger] news[k]).wf()
                &&& news[k].has_trailing_newline == (k < news.len() - 1 || p < es.len())
                &&& digits_before(place_before(es, p), news[k].locator@)
                &&& digits_before(news[k].locator@, place_at(es, p))
                &&& ends_nonzero(news[k].locator@)
            },
        forall|k: int, l: int|
            0 <= k < l < news.len() ==> digits_before(
                (#[trigger] news[k]).locator@,
                (#[trigger] news[l]).locator@,
            ),
        excerpts_text(spliced(es, p, news)).len()
            <= MAX_TEXT_LEN,
    ensures
        excerpts_wf(spliced(es, p, news)),
{
    let prefix = with_last_newline(es.take(p), true);
    reveal(spliced);
    let all = spliced(es, p, news);
    let n = news.len() as int;
    lemma_with_last_newline(es, p);
    assert forall|k: int| 0 <= k < n implies valid_locator((#[trigger] news[k]).locator@) by {
        lemma_valid_between(es, p, news[k].locator@);
    }
    assert forall|i: int| 0 <= i < all.len() implies (#[trigger] all[i]).wf()
        && all[i].has_trailing_newline == (i < all.len() - 1) && valid_locator(
        all[i].locator@,
    ) by {
        if i < p {
            assert(all[i] == prefix[i]);
            assert(valid_locator(es[i].locator@));
        } else if i < p + n {
            assert(all[i] == news[i - p]);
        } else {
            assert(all[i] == es[i - n]);
        }
    }
    assert forall|i: int, j: int| 0 <= i < j < all.len() implies digits_before(
        (#[trigger] all[i]).locator@,
        (#[trigger] all[j]).locator@,
    ) by {
        if i < p {
            assert(all[i].locator@ == es[i].locator@);
        } else if i < p + n {
            assert(all[i] == news[i - p]);
            lemma_valid_between(es, p, news[i - p].locator@);
        } else {
            assert(all[i] == es[i - n]);
        }
        if j < p {
            assert(all[j].locator@ == es[j].locator@);
        } else if j < p + n {
            assert(all[j] == news[j - p]);
            lemma_valid_between(es, p, news[j - p].locator@);
        } else {
            assert(all[j] == es[j - n]);
        }
    }
}

/// The text of excerpts put between two others is the old text with theirs put
/// in, behind a line break where the last excerpt gets one.
pub proof fn lemma_insert_text(es: Seq<Excerpt>, p: int, news: Seq<Excerpt>)
    requires
        excerpts_wf(es),
        0 <= p <= es.len(),
    ensures
        ({
            let old_text = excerpts_text(es);
            let new_text = excerpts_text(spliced(es, p, news));
            let start = excerpt_start(es, p);
            let end = spliced_end(es, p, news);
            &&& 0 <= start <= end <= new_text.len()
            &&& start <= old_text.len()
            &&& old_text.take(start) == new_text.take(start)
            &&& old_text.skip(start) == new_text.skip(end)
            &&& new_text.len() == old_text.len() + end - start
        }),
{
    reveal(spliced);
    let prefix = with_last_newline(es.take(p), true);
    let old_text = excerpts_text(es);
    let new_text = excerpts_text(spliced(es, p, news));
    let start = excerpt_start(es, p);
    let end = spliced_end(es, p, news);
    lemma_with_last_newline(es, p);
    lemma_excerpts_text_concat(prefix, news);
    lemma_excerpts_text_concat(prefix + news, es.skip(p));
    lemma_excerpts_text_split(es, p);
    assert(old_text.take(start) =~= new_text.take(start));
    assert(old_text.skip(start) =~= new_text.skip(end));
}

/// The edit that puts in the text of excerpts behind the first `p`.
pub open spec fn splice_edit(es: Seq<Excerpt>, p: int, news: Seq<Excerpt>) -> Edit {
    let start = excerpt_start(es, p);
    Edit {
        old: Range { start: start as usize, end: start as usize },
        new: Range { start: start as usize, end: spliced_end(es, p, news) as usize },
    }
}

/// Putting in excerpts changes the text as the edit says.
pub proof fn lemma_insert_patched(es: Seq<Excerpt>, p: int, news: Seq<Excerpt>)
    requires
        excerpts_wf(es),
        0 <= p <= es.len(),
        excerpts_text(spliced(es, p, news)).len() <= MAX_TEXT_LEN,
    ensures
        patched(
            excerpts_text(es),
            excerpts_text(spliced(es, p, news)),
            seq![splice_edit(es, p, news)],
        ),
{
    lemma_insert_text(es, p, news);
    lemma_patched_one(
        excerpts_text(es),
        excerpts_text(spliced(es, p, news)),
        splice_edit(es, p, news),
    );
}

/// The places of excerpts.
pub open spec fn places_of(es: Seq<Excerpt>) -> Seq<Seq<u64>> {
    es.map_values(|e: Excerpt| e.locator@)
}

proof fn lemma_locators_of_one_buffer(es: Seq<Excerpt>, owner: BufferId, buffer_id: BufferId)
    requires
        forall|i: int| 0 <= i < es.len() ==> (#[trigger] es[i]).buffer_id == owner,
    ensures
        owner == buffer_id ==> locators_of(es, buffer_id) == places_of(es),
        owner != buffer_id ==> locators_of(es, buffer_id).len() == 0,
    decreases es.len(),
{
    if es.len() > 0 {
        assert(es.last().buffer_id == owner);
        lemma_locators_of_one_buffer(es.drop_last(), owner, buffer_id);
        if owner == buffer_id {
            assert(locators_of(es, buffer_id) =~= places_of(es));
        }
    } else {
        assert(locators_of(es, buffer_id) =~= places_of(es));
    }
}

/// Where the states of the buffers fit the excerpts, they do so with excerpts
/// of one buffer put in and the state of that buffer extended.
proof fn lemma_insert_buffers(
    es: Seq<Excerpt>,
    p: int,
    news: Seq<Excerpt>,
    states: Seq<BufferState>,
    new_states: Seq<BufferState>,
    s: int,
    buffer: Arc<BufferSnapshot>,
)
    requires
        excerpts_wf(es),
        buffers_wf(es, states),
        0 <= p <= es.len(),
        buffer.wf(),
        news.len() > 0,
        forall|k: int|
            0 <= k < news.len() ==> (#[trigger] news[k]).buffer == buffer && news[k].buffer_id
                == buffer.remote_id,
        0 <= s < new_states.len(),
        new_states[s].buffer == buffer,
        s < states.len() ==> new_states.len() == states.len() && states[s].buffer == buffer,
        s >= states.len() ==> {
            &&& s == states.len()
            &&& new_states.len() == states.len() + 1
            &&& forall|t: int|
                0 <= t < states.len() ==> (#[trigger] states[t]).buffer.remote_id
                    != buffer.remote_id
        },
        forall|t: int|
            0 <= t < states.len() && t != s ==> #[trigger] new_states[t] == states[t],
        digits_of(new_states[s].excerpts@) == locators_of(es.take(p), buffer.remote_id)
            + places_of(news) + locators_of(es.skip(p), buffer.remote_id),
    ensures
        buffers_wf(spliced(es, p, news), new_states),
{
    reveal(buffers_wf);
    let prefix = with_last_newline(es.take(p), true);
    reveal(spliced);
    let all = spliced(es, p, news);
    lemma_with_last_newline(es, p);
    assert forall|b: BufferId| true implies #[trigger] locators_of(all, b) == locators_of(
        es.take(p),
        b,
    ) + locators_of(news, b) + locators_of(es.skip(p), b) by {
        lemma_locators_same(prefix, es.take(p), b);
        lemma_locators_concat(prefix, news, b);
        lemma_locators_concat(prefix + news, es.skip(p), b);
    }
    lemma_locators_of_one_buffer(news, buffer.remote_id, buffer.remote_id);
    assert forall|t: int| 0 <= t < new_states.len() implies state_fits(
        all,
        #[trigger] new_states[t],
    ) by {
        let b = new_states[t].buffer.remote_id;
        if t == s {
            assert(digits_of(new_states[t].excerpts@).len() == new_states[t].excerpts@.len());
            assert(digits_of(new_states[t].excerpts@) =~= locators_of(all, b));
        } else {
            assert(state_fits(es, states[t]));
            if s < states.len() {
                if t < s {
                    assert(states[t].buffer.remote_id != states[s].buffer.remote_id);
                } else {
                    assert(states[s].buffer.remote_id != states[t].buffer.remote_id);
                }
            }
            lemma_locators_of_one_buffer(news, buffer.remote_id, b);
            lemma_locators_concat(es.take(p), es.skip(p), b);
            assert(es.take(p) + es.skip(p) =~= es);
            assert(locators_of(all, b) =~= locators_of(es, b));
        }
    }
    assert forall|i: int| 0 <= i < all.len() implies has_state(new_states, #[trigger] all[i]) by {
        if i < p {
            assert(has_state(states, es[i]));
            let t = choose|t: int| state_of(states, t, es[i]);
            assert(state_of(states, t, es[i]));
            assert(all[i] == prefix[i]);
            assert(state_of(new_states, t, all[i]));
        } else if i < p + news.len() {
            assert(all[i] == news[i - p]);
            assert(state_of(new_states, s, all[i]));
        } else {
            let e = es[i - news.len()];
            assert(has_state(states, e));
            let t = choose|t: int| state_of(states, t, e);
            assert(state_of(states, t, e));
            assert(all[i] == e);
            assert(state_of(new_states, t, all[i]));
        }
    }
    assert forall|a: int, b: int| 0 <= a < b < new_states.len() implies (
    #[trigger] new_states[a]).buffer.remote_id != (#[trigger] new_states[b]).buffer.remote_id by {
        if b < states.len() {
            assert(states[a].buffer.remote_id != states[b].buffer.remote_id);
        } else {
            assert(states[a].buffer.remote_id != buffer.remote_id);
        }
    }
}

/// Whether `news` are the first of the excerpts that show the ranges behind the
/// first `p` excerpts.
#[verifier::opaque]
pub open spec fn news_fit<O: ToBufferOffset>(
    es: Seq<Excerpt>,
    p: int,
    news: Seq<Excerpt>,
    ranges: Seq<(ExcerptId, ExcerptRange<O>)>,
    buffer: Arc<BufferSnapshot>,
) -> bool {
    let prev = place_before(es, p);
    let next = place_at(es, p);
    &&& news.len() <= ranges.len()
    &&& forall|k: int|
        0 <= k < news.len() ==> is_new_excerpt(
            #[trigger] news[k],
            k,
            ranges,
            buffer,
            prev,
            next,
            p < es.len(),
        )
    &&& forall|k: int|
        0 <= k < news.len() ==> {
            &&& digits_before(prev, (#[trigger] news[k]).locator@)
            &&& digits_before(news[k].locator@, next)
            &&& ends_nonzero(news[k].locator@)
        }
    &&& forall|k: int, l: int|
        0 <= k < l < news.len() ==> digits_before(
            (#[trigger] news[k]).locator@,
            (#[trigger] news[l]).locator@,
        )
    &&& places_between(prev, next, news.len() as int).len() == news.len()
    &&& news.len() > 0 ==> places_between(prev, next, news.len() as int).last()
        == news.last().locator@
}

/// The place of the last of some new excerpts, or the one before them all.
pub open spec fn last_place(es: Seq<Excerpt>, p: int, news: Seq<Excerpt>) -> Seq<u64> {
    if news.len() == 0 {
        place_before(es, p)
    } else {
        news.last().locator@
    }
}

proof fn lemma_news_push<O: ToBufferOffset>(
    es: Seq<Excerpt>,
    p: int,
    news: Seq<Excerpt>,
    ranges: Seq<(ExcerptId, ExcerptRange<O>)>,
    buffer: Arc<BufferSnapshot>,
    e: Excerpt,
)
    requires
        news_fit(es, p, news, ranges, buffer),
        news.len() < ranges.len(),
        e.wf(),
        e.id == ranges[news.len() as int].0,
        e.locator@ == digits_between(last_place(es, p, news), place_at(es, p), 0),
        digits_before(last_place(es, p, news), e.locator@),
        digits_before(e.locator@, place_at(es, p)),
        ends_nonzero(e.locator@),
        e.buffer_id == buffer.remote_id,
        e.buffer == buffer,
        e.range == anchored(ranges[news.len() as int].1, *buffer),
        e.has_trailing_newline == (news.len() < ranges.len() - 1 || p < es.len()),
    ensures
        news_fit(es, p, news.push(e), ranges, buffer),
{
    reveal(news_fit);
    let n = news.len() as int;
    let grown = news.push(e);
    assert forall|k: int, l: int| 0 <= k < l < grown.len() implies digits_before(
        (#[trigger] grown[k]).locator@,
        (#[trigger] grown[l]).locator@,
    ) by {
        if l == n && k < n - 1 {
            lemma_order_transitive(news[k].locator@, news[n - 1].locator@, e.locator@);
        }
    }
    if n > 0 {
        lemma_order_transitive(place_before(es, p), news[n - 1].locator@, e.locator@);
    }
    assert forall|k: int| 0 <= k < grown.len() implies is_new_excerpt(
        #[trigger] grown[k],
        k,
        ranges,
        buffer,
        place_before(es, p),
        place_at(es, p),
        p < es.len(),
    ) by {
        if k < n {
            assert(grown[k] == news[k]);
        }
    }
}

proof fn lemma_news_are_new<O: ToBufferOffset>(
    es: Seq<Excerpt>,
    p: int,
    news: Seq<Excerpt>,
    ranges: Seq<(ExcerptId, ExcerptRange<O>)>,
    buffer: Arc<BufferSnapshot>,
)
    requires
        news_fit(es, p, news, ranges, buffer),
    ensures
        forall|k: int|
            0 <= k < news.len() ==> is_new_excerpt(
                #[trigger] news[k],
                k,
                ranges,
                buffer,
                place_before(es, p),
                place_at(es, p),
                p < es.len(),
            ),
{
    reveal(news_fit);
}

/// Putting excerpts in makes as many more.
proof fn lemma_spliced_len(es: Seq<Excerpt>, p: int, news: Seq<Excerpt>)
    requires
        0 <= p <= es.len(),
    ensures
        spliced(es, p, news).len() == es.len() + news.len(),
{
    reveal(spliced);
}

/// Once all ranges have their excerpts, the multibuffer is well-formed.
proof fn lemma_inserted<O: ToBufferOffset>(
    es: Seq<Excerpt>,
    p: int,
    news: Seq<Excerpt>,
    ranges: Seq<(ExcerptId, ExcerptRange<O>)>,
    buffer: Arc<BufferSnapshot>,
    ids: Seq<ExcerptIdMapping>,
    new_ids: Seq<ExcerptIdMapping>,
)
    requires
        excerpts_wf(es),
        0 <= p <= es.len(),
        news_fit(es, p, news, ranges, buffer),
        news.len() == ranges.len(),
        ranges.len() > 0,
        excerpt_ids_wf(ids),
        ids_follow(ids, ranges),
        entries_follow(ids, new_ids, news),
        forall|j: int| 0 <= j < es.len() ==> is_mapped(ids, #[trigger] es[j]),
        excerpts_text(spliced(es, p, news)).len()
            <= MAX_TEXT_LEN,
    ensures
        ({
            let all = spliced(es, p, news);
            &&& excerpts_wf(all)
            &&& excerpt_ids_wf(new_ids)
            &&& forall|i: int| 0 <= i < all.len() ==> is_mapped(new_ids, #[trigger] all[i])
            &&& news == all.subrange(p, p + ranges.len())
        }),
{
    reveal(news_fit);
    let prefix = with_last_newline(es.take(p), true);
    reveal(spliced);
    let all = spliced(es, p, news);
    lemma_with_last_newline(es, p);
    assert(news =~= all.subrange(p, p + ranges.len()));
    assert forall|k: int| 0 <= k < news.len() implies (#[trigger] news[k]).wf()
        && news[k].has_trailing_newline == (k < news.len() - 1 || p < es.len()) by {
        assert(is_new_excerpt(
            news[k],
            k,
            ranges,
            buffer,
            place_before(es, p),
            place_at(es, p),
            p < es.len(),
        ));
    }
    lemma_insert_wf(es, p, news);
    assert forall|j: int| 0 <= j < news.len() implies 0 < (#[trigger] news[j]).id.0 < usize::MAX
        && valid_locator(news[j].locator@) && news[j].id == ranges[j].0 by {
        assert(is_new_excerpt(
            news[j],
            j,
            ranges,
            buffer,
            place_before(es, p),
            place_at(es, p),
            p < es.len(),
        ));
        lemma_valid_between(es, p, news[j].locator@);
    }
    lemma_entries_wf(ids, new_ids, news);
    assert forall|i: int| 0 <= i < all.len() implies is_mapped(new_ids, #[trigger] all[i]) by {
        lemma_still_mapped(es, ids, new_ids, p, news, i);
    }
}

/// How many of the first `p` excerpts belong to a buffer.
fn count_of_buffer(excerpts: &Vec<Excerpt>, p: usize, buffer_id: BufferId) -> (r: usize)
    requires
        p <= excerpts@.len(),
    ensures
        r == locators_of(excerpts@.take(p as int), buffer_id).len(),
        r <= p,
{
    let mut count: usize = 0;
    let mut i: usize = 0;
    assert(excerpts@.take(0) =~= Seq::<Excerpt>::empty());
    while i < p
        invariant
            i <= p <= excerpts@.len(),
            count <= i,
            count == locators_of(excerpts@.take(i as int), buffer_id).len(),
        decreases p - i,
    {
        proof {
            assert(excerpts@.take(i + 1).drop_last() =~= excerpts@.take(i as int));
            assert(excerpts@.take(i + 1).last() == excerpts@[i as int]);
        }
        if excerpts[i].buffer_id == buffer_id {
            count = count + 1;
        }
        i = i + 1;
    }
    count
}

impl MultiBuffer {
    /// The state of a buffer.
    pub fn buffer_state_index(&self, buffer_id: BufferId) -> (r: Option<usize>)
        ensures
            match r {
                Some(s) => s < self.buffers@.len() && self.buffers@[s as int].buffer.remote_id
                    == buffer_id,
                None => forall|t: int|
                    0 <= t < self.buffers@.len() ==> (#[trigger] self.buffers@[t]).buffer.remote_id
                        != buffer_id,
            },
    {
        let mut s: usize = 0;
        while s < self.buffers.len()
            invariant
                s <= self.buffers@.len(),
                forall|t: int|
                    0 <= t < s ==> (#[trigger] self.buffers@[t]).buffer.remote_id != buffer_id,
            decreases self.buffers@.len() - s,
        {
            if self.buffers[s].buffer.remote_id == buffer_id {
                return Some(s);
            }
            s = s + 1;
        }
        None
    }
}

/// Entries that follow the entries `ids`: one for each new excerpt.
pub open spec fn entries_follow(
    ids: Seq<ExcerptIdMapping>,
    new_ids: Seq<ExcerptIdMapping>,
    news: Seq<Excerpt>,
) -> bool {
    &&& new_ids.len() == ids.len() + news.len()
    &&& forall|k: int| 0 <= k < ids.len() ==> #[trigger] new_ids[k] == ids[k]
    &&& forall|k: int| 0 <= k < news.len() ==> maps(new_ids, ids.len() + k, #[trigger] news[k])
}

/// Whether the identifiers of new excerpts grow, and are greater than any that
/// was handed out before.
pub open spec fn ids_follow<O>(
    ids: Seq<ExcerptIdMapping>,
    ranges: Seq<(ExcerptId, ExcerptRange<O>)>,
) -> bool {
    &&& forall|k: int| 0 <= k < ranges.len() ==> 0 < (#[trigger] ranges[k]).0.0 < usize::MAX
    &&& forall|k: int, l: int|
        0 <= k < l < ranges.len() ==> (#[trigger] ranges[k]).0.0 < (#[trigger] ranges[l]).0.0
    &&& ids.len() > 0 && ranges.len() > 0 ==> ids.last().id.0 < ranges[0].0.0
}

/// The next identifier to hand out.
pub open spec fn next_id(ids: Seq<ExcerptIdMapping>) -> int {
    if ids.len() == 0 {
        1
    } else {
        ids.last().id.0 + 1
    }
}

/// The next `n` identifiers to hand out.
pub open spec fn new_ids(ids: Seq<ExcerptIdMapping>, n: nat) -> Seq<ExcerptId> {
    Seq::new(n, |k: int| ExcerptId((next_id(ids) + k) as usize))
}

/// Each identifier as often as the count beside it says.
pub open spec fn repeated(ids: Seq<ExcerptId>, counts: Seq<usize>) -> Seq<ExcerptId>
    decreases ids.len(),
{
    if ids.len() == 0 || counts.len() != ids.len() {
        seq![]
    } else {
        repeated(ids.drop_last(), counts.drop_last()) + Seq::new(
            counts.last() as nat,
            |k: int| ids.last(),
        )
    }
}

/// How many ranges the groups hold.
pub open spec fn counts_of(groups: Seq<Group>) -> Seq<usize> {
    groups.map_values(|group: Group| (group.next - group.first) as usize)
}

/// Groups that follow one another hold as many ranges as lie before the end of
/// the last.
pub proof fn lemma_repeated_len(groups: Seq<Group>, ids: Seq<ExcerptId>, n: int)
    requires
        0 <= n <= groups.len(),
        ids.len() == groups.len(),
        groups.len() > 0 ==> groups[0].first == 0,
        forall|g: int|
            0 <= g < groups.len() ==> 0 <= (#[trigger] groups[g]).first < groups[g].next
                <= usize::MAX,
        forall|g: int|
            0 < g < groups.len() ==> (#[trigger] groups[g]).first == groups[g - 1].next,
    ensures
        repeated(ids.take(n), counts_of(groups.take(n))).len() == if n == 0 {
            0
        } else {
            groups[n - 1].next
        },
    decreases n,
{
    if n > 0 {
        lemma_repeated_len(groups, ids, n - 1);
        assert(ids.take(n).drop_last() =~= ids.take(n - 1));
        assert(counts_of(groups.take(n)).drop_last() =~= counts_of(groups.take(n - 1)));
        assert(counts_of(groups.take(n)).last() == (groups[n - 1].next
            - groups[n - 1].first) as usize);
        if n > 1 {
            assert(groups[n - 1].first == groups[n - 2].next);
        }
    }
}

/// Ranges of a buffer as ranges in excerpts of it: the excerpt with the
/// `g`-th identifier gets the next `counts[g]` ranges.
fn assign_ranges<O: ToBufferOffset>(
    buffer: &Arc<BufferSnapshot>,
    ranges: &Vec<Range<O>>,
    ids: &Vec<ExcerptId>,
    counts: &Vec<usize>,
) -> (r: Vec<Range<Anchor>>)
    requires
        buffer.wf(),
        ids@.len() == counts@.len(),
        repeated(ids@, counts@).len() == ranges@.len(),
        forall|k: int|
            0 <= k < ranges@.len() ==> (#[trigger] ranges@[k]).start.is_in(**buffer)
                && ranges@[k].end.is_in(**buffer),
    ensures
        r@ == Seq::new(
            ranges@.len(),
            |k: int| anchor_range_in(ranges@[k], **buffer, repeated(ids@, counts@)[k]),
        ),
{
    let mut assigned: Vec<Range<Anchor>> = Vec::new();
    let mut g: usize = 0;
    let ghost all = repeated(ids@, counts@);
    proof {
        assert(ids@.take(0) =~= Seq::<ExcerptId>::empty());
        lemma_repeated_prefix(ids@, counts@, 0);
    }
    while g < ids.len()
        invariant
            buffer.wf(),
            g <= ids@.len(),
            ids@.len() == counts@.len(),
            all == repeated(ids@, counts@),
            all.len() == ranges@.len(),
            forall|k: int|
                0 <= k < ranges@.len() ==> (#[trigger] ranges@[k]).start.is_in(**buffer)
                    && ranges@[k].end.is_in(**buffer),
            assigned@.len() == repeated(ids@.take(g as int), counts@.take(g as int)).len(),
            assigned@.len() <= ranges@.len(),
            forall|k: int|
                0 <= k < assigned@.len() ==> #[trigger] assigned@[k] == anchor_range_in(
                    ranges@[k],
                    **buffer,
                    all[k],
                ),
        decreases ids@.len() - g,
    {
        let ghost before = assigned@.len() as int;
        let id = ids[g];
        let count: usize = counts[g];
        proof {
            lemma_repeated_prefix(ids@, counts@, g + 1);
            assert(ids@.take(g + 1).drop_last() =~= ids@.take(g as int));
            assert(counts@.take(g + 1).drop_last() =~= counts@.take(g as int));
            let grown = repeated(ids@.take(g + 1), counts@.take(g + 1));
            assert forall|k: int| before <= k < before + count implies #[trigger] all[k]
                == id by {
                assert(grown[k] == id);
            }
        }
        let mut done: usize = 0;
        while done < count
            invariant
                buffer.wf(),
                done <= count,
                before + count <= ranges@.len(),
                all.len() == ranges@.len(),
                assigned@.len() == before + done,
                0 <= before,
                forall|k: int| before <= k < before + count ==> #[trigger] all[k] == id,
                forall|k: int|
                    0 <= k < ranges@.len() ==> (#[trigger] ranges@[k]).start.is_in(**buffer)
                        && ranges@[k].end.is_in(**buffer),
                forall|k: int|
                    0 <= k < assigned@.len() ==> #[trigger] assigned@[k] == anchor_range_in(
                        ranges@[k],
                        **buffer,
                        all[k],
                    ),
            decreases count - done,
        {
            let k: usize = assigned.len();
            let range = &ranges[k];
            let start: usize = range.start.to_buffer_offset(buffer);
            let end: usize = range.end.to_buffer_offset(buffer);
            assigned.push(
                Anchor {
                    buffer_id: Some(buffer.remote_id),
                    excerpt_id: id,
                    text_anchor: buffer.anchor_after(start),
                }..Anchor {
                    buffer_id: Some(buffer.remote_id),
                    excerpt_id: id,
                    text_anchor: buffer.anchor_after(end),
                },
            );
            done = done + 1;
        }
        g = g + 1;
    }
    proof {
        assert(ids@.take(ids@.len() as int) =~= ids@);
        assert(counts@.take(ids@.len() as int) =~= counts@);
    }
    assigned
}

pub proof fn lemma_repeated_prefix(ids: Seq<ExcerptId>, counts: Seq<usize>, g: int)
    requires
        ids.len() == counts.len(),
        0 <= g <= ids.len(),
    ensures
        repeated(ids.take(g), counts.take(g)).len() <= repeated(ids, counts).len(),
        forall|k: int|
            0 <= k < repeated(ids.take(g), counts.take(g)).len() ==> #[trigger] repeated(
                ids,
                counts,
            )[k] == repeated(ids.take(g), counts.take(g))[k],
        forall|k: int|
            0 <= k < repeated(ids.take(g), counts.take(g)).len() ==> repeated(ids, counts)[k]
                == #[trigger] repeated(ids.take(g), counts.take(g))[k],
    decreases ids.len(),
{
    if g == ids.len() {
        assert(ids.take(g) =~= ids);
        assert(counts.take(g) =~= counts);
    } else {
        lemma_repeated_prefix(ids.drop_last(), counts.drop_last(), g);
        assert(ids.drop_last().take(g) =~= ids.take(g));
        assert(counts.drop_last().take(g) =~= counts.take(g));
    }
}

/// The ranges under the next identifiers.
pub open spec fn numbered<O>(
    ids: Seq<ExcerptIdMapping>,
    ranges: Seq<ExcerptRange<O>>,
) -> Seq<(ExcerptId, ExcerptRange<O>)> {
    Seq::new(ranges.len(), |k: int| (ExcerptId((next_id(ids) + k) as usize), ranges[k]))
}

/// A range of a buffer, as a range in an excerpt of it.
pub open spec fn anchor_range_in<O: ToBufferOffset>(
    range: Range<O>,
    buffer: BufferSnapshot,
    excerpt_id: ExcerptId,
) -> Range<Anchor> {
    Range {
        start: Anchor {
            buffer_id: Some(buffer.remote_id),
            excerpt_id,
            text_anchor: buffer.anchor_spec(range.start.offset_in(buffer), Bias::Right),
        },
        end: Anchor {
            buffer_id: Some(buffer.remote_id),
            excerpt_id,
            text_anchor: buffer.anchor_spec(range.end.offset_in(buffer), Bias::Right),
        },
    }
}

/// What the event says of the new excerpts.
pub open spec fn added_excerpts(news: Seq<Excerpt>) -> Seq<
    (ExcerptId, ExcerptRange<TextAnchor>),
> {
    news.map_values(|e: Excerpt| (e.id, e.range))
}

proof fn lemma_entries_wf(
    ids: Seq<ExcerptIdMapping>,
    new_ids: Seq<ExcerptIdMapping>,
    news: Seq<Excerpt>,
)
    requires
        excerpt_ids_wf(ids),
        entries_follow(ids, new_ids, news),
        forall|k: int|
            0 <= k < news.len() ==> 0 < (#[trigger] news[k]).id.0 < usize::MAX && valid_locator(
                news[k].locator@,
            ),
        forall|k: int, l: int|
            0 <= k < l < news.len() ==> (#[trigger] news[k]).id.0 < (#[trigger] news[l]).id.0,
        ids.len() > 0 && news.len() > 0 ==> ids.last().id.0 < news[0].id.0,
    ensures
        excerpt_ids_wf(new_ids),
{
    assert forall|i: int| 0 <= i < new_ids.len() implies 0 < (#[trigger] new_ids[i]).id.0
        < usize::MAX && valid_locator(new_ids[i].locator@) by {
        if i >= ids.len() {
            assert(maps(new_ids, i, news[i - ids.len()]));
        } else {
            assert(new_ids[i] == ids[i]);
        }
    }
    assert forall|i: int, j: int| 0 <= i < j < new_ids.len() implies (#[trigger] new_ids[i]).id.0
        < (#[trigger] new_ids[j]).id.0 by {
        if i < ids.len() {
            assert(new_ids[i] == ids[i]);
            assert(ids[i].id.0 <= ids.last().id.0);
        } else {
            assert(maps(new_ids, i, news[i - ids.len()]));
        }
        if j < ids.len() {
            assert(new_ids[j] == ids[j]);
        } else {
            assert(maps(new_ids, j, news[j - ids.len()]));
            assert(news[0].id.0 <= news[j - ids.len()].id.0);
        }
    }
}

pub proof fn lemma_room_grows<O: ToBufferOffset>(
    ranges: Seq<(ExcerptId, ExcerptRange<O>)>,
    buffer: Arc<BufferSnapshot>,
    k: int,
)
    requires
        0 <= k <= ranges.len(),
        forall|j: int|
            0 <= j < ranges.len() ==> showable((#[trigger] ranges[j]).1, *buffer),
    ensures
        0 <= room_for(ranges.take(k), *buffer) <= room_for(ranges, *buffer),
        k < ranges.len() ==> room_for(ranges.take(k + 1), *buffer) == room_for(
            ranges.take(k),
            *buffer,
        ) + ranges[k].1.context.end.offset_in(*buffer) - ranges[k].1.context.start.offset_in(
            *buffer,
        ) + 1,
    decreases ranges.len() - k,
{
    if k < ranges.len() {
        lemma_room_grows(ranges, buffer, k + 1);
        assert(ranges.take(k + 1).drop_last() =~= ranges.take(k));
        assert(showable(ranges[k].1, *buffer));
        lemma_room_nonnegative(ranges.take(k), buffer);
    } else {
        assert(ranges.take(k) =~= ranges);
        lemma_room_nonnegative(ranges, buffer);
    }
}

proof fn lemma_room_nonnegative<O: ToBufferOffset>(
    ranges: Seq<(ExcerptId, ExcerptRange<O>)>,
    buffer: Arc<BufferSnapshot>,
)
    requires
        forall|j: int|
            0 <= j < ranges.len() ==> showable((#[trigger] ranges[j]).1, *buffer),
    ensures
        0 <= room_for(ranges, *buffer),
    decreases ranges.len(),
{
    if ranges.len() > 0 {
        assert(showable(ranges.last().1, *buffer));
        lemma_room_nonnegative(ranges.drop_last(), buffer);
    }
}

/// A stretch of a buffer, held by anchors that let it grow.
fn anchor_range<O: ToBufferOffset>(range: &ExcerptRange<O>, buffer: &BufferSnapshot) -> (r:
    ExcerptRange<TextAnchor>)
    requires
        buffer.wf(),
        showable(*range, *buffer),
    ensures
        r == anchored(*range, *buffer),
        resolved(r.context.start, buffer.bytes().len() as int)
            == range.context.start.offset_in(*buffer),
        resolved(r.context.end, buffer.bytes().len() as int) == range.context.end.offset_in(
            *buffer,
        ),
{
    let start: usize = range.context.start.to_buffer_offset(buffer);
    let end: usize = range.context.end.to_buffer_offset(buffer);
    ExcerptRange {
        context: buffer.anchor_before(start)..buffer.anchor_after(end),
        primary: match &range.primary {
            Some(primary) => {
                let primary_start: usize = primary.start.to_buffer_offset(buffer);
                let primary_end: usize = primary.end.to_buffer_offset(buffer);
                Some(buffer.anchor_before(primary_start)..buffer.anchor_after(primary_end))
            },
            None => None,
        },
    }
}

impl MultiBuffer {
    /// The number of excerpts up to the one with an identifier.
    pub open spec fn insertion_index(&self, prev_excerpt_id: ExcerptId) -> int {
        locator_index(
            self.snapshot.excerpts@,
            self.snapshot.locator_for(prev_excerpt_id),
            Bias::Right,
            0,
        )
    }

    /// Whether ranges of a buffer can be shown behind an excerpt.
    pub open spec fn can_insert<O: ToBufferOffset>(
        &self,
        prev_excerpt_id: ExcerptId,
        buffer: Arc<BufferSnapshot>,
        ranges: Seq<(ExcerptId, ExcerptRange<O>)>,
    ) -> bool {
        &&& !self.singleton
        &&& self.history.transaction_depth == 0
        &&& self.snapshot.knows_id(prev_excerpt_id)
        &&& buffer.wf()
        &&& forall|s: int|
            0 <= s < self.buffers@.len() && (#[trigger] self.buffers@[s]).buffer.remote_id
                == buffer.remote_id ==> self.buffers@[s].buffer == buffer
        &&& forall|k: int| 0 <= k < ranges.len() ==> showable((#[trigger] ranges[k]).1, *buffer)
        &&& self.snapshot.bytes().len() + room_for(ranges, *buffer) <= MAX_TEXT_LEN
        &&& self.snapshot.trailing_excerpt_update_count < usize::MAX
    }

    /// Whether `self` is `before` with the excerpts `news` behind the first `p`.
    pub open spec fn has_inserted(
        &self,
        before: &MultiBuffer,
        p: int,
        news: Seq<Excerpt>,
    ) -> bool {
        let es = before.snapshot.excerpts@;
        &&& self.snapshot.excerpts@ == spliced(es, p, news)
        &&& entries_follow(before.snapshot.excerpt_ids@, self.snapshot.excerpt_ids@, news)
        &&& self.snapshot.trailing_excerpt_update_count
            == before.snapshot.trailing_excerpt_update_count + if p == es.len() {
            1int
        } else {
            0int
        }
        &&& self.snapshot.same_but_trailing(&before.snapshot)
        &&& self.same_but_excerpts(before)
        &&& self.published_on(
            before,
            seq![splice_edit(es, p, news)],
        )
    }

    /// Whether `self` is `before` with ranges of a buffer shown behind an
    /// excerpt.
    pub open spec fn shows_more<O: ToBufferOffset>(
        &self,
        before: &MultiBuffer,
        prev_excerpt_id: ExcerptId,
        buffer: Arc<BufferSnapshot>,
        ranges: Seq<(ExcerptId, ExcerptRange<O>)>,
    ) -> bool {
        let es = before.snapshot.excerpts@;
        let p = before.insertion_index(prev_excerpt_id);
        let news = self.snapshot.excerpts@.subrange(p, p + ranges.len());
        if ranges.len() == 0 {
            *self == *before
        } else {
            &&& self.snapshot.excerpts@.len() == es.len() + ranges.len()
            &&& self.has_inserted(before, p, news)
            &&& forall|k: int|
                0 <= k < news.len() ==> is_new_excerpt(
                    #[trigger] news[k],
                    k,
                    ranges,
                    buffer,
                    place_before(es, p),
                    place_at(es, p),
                    p < es.len(),
                )
            &&& self.events@.len() == before.events@.len() + 2
            &&& self.events@.take(before.events@.len() as int) == before.events@
            &&& self.events@[before.events@.len() as int] == (Event::Edited {
                singleton_buffer_edited: false,
                edited_buffer: None,
            })
            &&& self.events@.last() matches Event::ExcerptsAdded {
                buffer: added_to,
                predecessor,
                excerpts,
            } && added_to == buffer.remote_id && predecessor == prev_excerpt_id && excerpts@
                == added_excerpts(news)
        }
    }

    /// Shows ranges of a buffer behind an excerpt, under given identifiers.
    pub fn insert_excerpts_with_ids_after<O: ToBufferOffset>(
        &mut self,
        prev_excerpt_id: ExcerptId,
        buffer: Arc<BufferSnapshot>,
        ranges: &Vec<(ExcerptId, ExcerptRange<O>)>,
    )
        requires
            old(self).wf(),
            old(self).can_insert(prev_excerpt_id, buffer, ranges@),
            ids_follow(old(self).snapshot.excerpt_ids@, ranges@),
        ensures
            final(self).wf(),
            final(self).shows_more(old(self), prev_excerpt_id, buffer, ranges@),
            ranges@.len() > 0 ==> patched(
                old(self).snapshot.bytes(),
                final(self).snapshot.bytes(),
                final(self).published@.last()@,
            ),
            final(self).snapshot.bytes().len() <= old(self).snapshot.bytes().len() + room_for(
                ranges@,
                *buffer,
            ),
    {
        if ranges.len() == 0 {
            return ;
        }
        let ghost before = *self;
        let ghost es = self.snapshot.excerpts@;
        let buffer_id = buffer.remote_id;
        let prev_locator_for_id = self.snapshot.excerpt_locator_for_id(prev_excerpt_id);
        let p: usize = self.snapshot.seek_locator(&prev_locator_for_id, Bias::Right);
        let cursor = self.snapshot.cursor_at(p);
        let edit_start: usize = cursor.start.len;
        let is_followed: bool = p < self.snapshot.excerpts.len();
        let gets_newline: bool = p > 0 && !is_followed;
        proof {
            lemma_excerpts_text_split(es, p as int);
        }
        let (news, added, new_len) = self.snapshot.make_excerpts(p, &buffer, ranges);
        let ghost new_es = news@;
        let edit_end: usize = edit_start + new_len + if gets_newline {
            1
        } else {
            0
        };
        proof {
            lemma_insert_text(es, p as int, new_es);
            lemma_insert_patched(es, p as int, new_es);
        }
        self.put_excerpts::<O>(p, &buffer, news, Ghost(ranges@));
        if !is_followed {
            self.snapshot.trailing_excerpt_update_count =
                self.snapshot.trailing_excerpt_update_count + 1;
        }
        let mut edits: Vec<Edit> = Vec::new();
        edits.push(Edit { old: edit_start..edit_start, new: edit_start..edit_end });
        assert(edits@ =~= seq![splice_edit(es, p as int, new_es)]);
        self.published.push(edits);
        self.events.push(
            Event::Edited { singleton_buffer_edited: false, edited_buffer: None },
        );
        self.events.push(
            Event::ExcerptsAdded {
                buffer: buffer_id,
                predecessor: prev_excerpt_id,
                excerpts: added,
            },
        );
        assert(self.published@.drop_last() =~= before.published@);
        assert(self.events@.take(before.events@.len() as int) =~= before.events@);
        assert(self.has_inserted(&before, p as int, new_es));
        proof {
            lemma_news_are_new(es, p as int, new_es, ranges@, buffer);
            lemma_spliced_len(es, p as int, new_es);
        }
    }

    /// Shows ranges of a buffer behind an excerpt. Returns the identifiers of the
    /// new excerpts.
    pub fn insert_excerpts_after<O: ToBufferOffset + Copy>(
        &mut self,
        prev_excerpt_id: ExcerptId,
        buffer: Arc<BufferSnapshot>,
        ranges: &Vec<ExcerptRange<O>>,
    ) -> (r: Vec<ExcerptId>)
        requires
            old(self).wf(),
            old(self).can_insert(
                prev_excerpt_id,
                buffer,
                numbered(old(self).snapshot.excerpt_ids@, ranges@),
            ),
            next_id(old(self).snapshot.excerpt_ids@) + ranges@.len() <= usize::MAX,
        ensures
            final(self).wf(),
            final(self).shows_more(
                old(self),
                prev_excerpt_id,
                buffer,
                numbered(old(self).snapshot.excerpt_ids@, ranges@),
            ),
            r@ == new_ids(old(self).snapshot.excerpt_ids@, ranges@.len()),
            ranges@.len() > 0 ==> patched(
                old(self).snapshot.bytes(),
                final(self).snapshot.bytes(),
                final(self).published@.last()@,
            ),
            final(self).snapshot.bytes().len() <= old(self).snapshot.bytes().len() + room_for(
                numbered(old(self).snapshot.excerpt_ids@, ranges@),
                *buffer,
            ),
    {
        let count: usize = self.snapshot.excerpt_ids.len();
        let first_id: usize = if count > 0 {
            self.snapshot.excerpt_ids[count - 1].id.0 + 1
        } else {
            1
        };
        let mut ids: Vec<ExcerptId> = Vec::new();
        let mut ranges_with_ids: Vec<(ExcerptId, ExcerptRange<O>)> = Vec::new();
        let mut k: usize = 0;
        while k < ranges.len()
            invariant
                k <= ranges@.len(),
                first_id == next_id(self.snapshot.excerpt_ids@),
                first_id + ranges@.len() <= usize::MAX,
                ids@ == new_ids(self.snapshot.excerpt_ids@, k as nat),
                ranges_with_ids@ == numbered(self.snapshot.excerpt_ids@, ranges@.take(k as int)),
            decreases ranges@.len() - k,
        {
            let id = ExcerptId(first_id + k);
            ids.push(id);
            ranges_with_ids.push((id, ranges[k].clone()));
            assert(ids@ =~= new_ids(self.snapshot.excerpt_ids@, (k + 1) as nat));
            assert(ranges_with_ids@ =~= numbered(
                self.snapshot.excerpt_ids@,
                ranges@.take(k + 1),
            ));
            k = k + 1;
        }
        assert(ranges@.take(ranges@.len() as int) =~= ranges@);
        self.insert_excerpts_with_ids_after(prev_excerpt_id, buffer, &ranges_with_ids);
        ids
    }

    /// Shows ranges of a buffer behind all excerpts. Returns the identifiers of
    /// the new excerpts.
    pub fn push_excerpts<O: ToBufferOffset + Copy>(
        &mut self,
        buffer: Arc<BufferSnapshot>,
        ranges: &Vec<ExcerptRange<O>>,
    ) -> (r: Vec<ExcerptId>)
        requires
            old(self).wf(),
            old(self).can_insert(
                ExcerptId(usize::MAX),
                buffer,
                numbered(old(self).snapshot.excerpt_ids@, ranges@),
            ),
            next_id(old(self).snapshot.excerpt_ids@) + ranges@.len() <= usize::MAX,
        ensures
            final(self).wf(),
            final(self).shows_more(
                old(self),
                ExcerptId(usize::MAX),
                buffer,
                numbered(old(self).snapshot.excerpt_ids@, ranges@),
            ),
            r@ == new_ids(old(self).snapshot.excerpt_ids@, ranges@.len()),
            ranges@.len() > 0 ==> patched(
                old(self).snapshot.bytes(),
                final(self).snapshot.bytes(),
                final(self).published@.last()@,
            ),
            final(self).snapshot.bytes().len() <= old(self).snapshot.bytes().len() + room_for(
                numbered(old(self).snapshot.excerpt_ids@, ranges@),
                *buffer,
            ),
    {
        self.insert_excerpts_after(ExcerptId::max(), buffer, ranges)
    }

    /// Shows ranges of a buffer behind all excerpts, with `context_line_count`
    /// rows around them. Returns where the ranges are in the new excerpts.
    pub fn push_excerpts_with_context_lines<O: ToBufferPoint + ToBufferOffset>(
        &mut self,
        buffer: Arc<BufferSnapshot>,
        ranges: &Vec<Range<O>>,
        context_line_count: u32,
    ) -> (r: Vec<Range<Anchor>>)
        requires
            old(self).wf(),
            buffer.wf(),
            forall|k: int|
                0 <= k < ranges@.len() ==> (#[trigger] ranges@[k]).end.point_in(*buffer).row
                    + context_line_count <= u32::MAX && ranges@[k].start.is_in(*buffer)
                    && ranges@[k].end.is_in(*buffer),
            point_at(buffer.bytes(), buffer.bytes().len() as int).row + context_line_count
                <= u32::MAX,
            old(self).can_insert(
                ExcerptId(usize::MAX),
                buffer,
                numbered(
                    old(self).snapshot.excerpt_ids@,
                    stretches_for(ranges@, *buffer, context_line_count as int),
                ),
            ),
            next_id(old(self).snapshot.excerpt_ids@) + stretches_for(
                ranges@,
                *buffer,
                context_line_count as int,
            ).len() <= usize::MAX,
        ensures
            final(self).wf(),
            final(self).shows_more(
                old(self),
                ExcerptId(usize::MAX),
                buffer,
                numbered(
                    old(self).snapshot.excerpt_ids@,
                    stretches_for(ranges@, *buffer, context_line_count as int),
                ),
            ),
            r@ == Seq::new(
                ranges@.len(),
                |k: int|
                    anchor_range_in(
                        ranges@[k],
                        *buffer,
                        repeated(
                            new_ids(
                                old(self).snapshot.excerpt_ids@,
                                stretches_for(ranges@, *buffer, context_line_count as int).len(),
                            ),
                            counts_of(groups_of(ranges@, *buffer, context_line_count as int)),
                        )[k],
                    ),
            ),
    {
        let buffer_snapshot: &BufferSnapshot = &buffer;
        let (excerpt_ranges, range_counts) = build_excerpt_ranges(
            buffer_snapshot,
            ranges,
            context_line_count,
        );
        let excerpt_ids = self.push_excerpts(share(&buffer), &excerpt_ranges);
        proof {
            let groups = groups_of(ranges@, *buffer_snapshot, context_line_count as int);
            let points = points_of(ranges@, *buffer_snapshot);
            let max_row = point_at(buffer.bytes(), buffer.bytes().len() as int).row;
            lemma_groups(points, 0, context_line_count as int, max_row);
            assert(points.len() == ranges.len());
            assert(range_counts@ =~= counts_of(groups));
            lemma_repeated_len(groups, excerpt_ids@, groups.len() as int);
            assert(groups.take(groups.len() as int) =~= groups);
            assert(excerpt_ids@.take(groups.len() as int) =~= excerpt_ids@);
        }
        assign_ranges(&buffer, ranges, &excerpt_ids, &range_counts)
    }

    /// Where excerpts were put in, every excerpt but the last ends in a line break, so
    /// the text is what the excerpts show, joined by single line breaks; and the one
    /// edit that is published puts in, where the new excerpts start, as much text as
    /// came in addition.
    pub proof fn lemma_inserted_text<O: ToBufferOffset>(
        &self,
        before: &MultiBuffer,
        prev_excerpt_id: ExcerptId,
        buffer: Arc<BufferSnapshot>,
        ranges: Seq<(ExcerptId, ExcerptRange<O>)>,
    )
        requires
            before.wf(),
            self.wf(),
            ranges.len() > 0,
            self.shows_more(before, prev_excerpt_id, buffer, ranges),
        ensures
            ({
                let es = self.snapshot.excerpts@;
                let start = excerpt_start(
                    before.snapshot.excerpts@,
                    before.insertion_index(prev_excerpt_id),
                );
                let added = self.snapshot.bytes().len() - before.snapshot.bytes().len();
                &&& es.len() > 0
                &&& forall|i: int|
                    0 <= i < es.len() ==> (#[trigger] es[i]).has_trailing_newline == (i < es.len()
                        - 1)
                &&& self.snapshot.bytes() == joined_by_newlines(es)
                &&& 0 <= start <= before.snapshot.bytes().len()
                &&& added >= 0
                &&& self.published@.last()@ == seq![
                    Edit {
                        old: Range { start: start as usize, end: start as usize },
                        new: Range { start: start as usize, end: (start + added) as usize },
                    },
                ]
            }),
    {
        let es = before.snapshot.excerpts@;
        let p = before.insertion_index(prev_excerpt_id);
        let news = self.snapshot.excerpts@.subrange(p, p + ranges.len());
        lemma_locator_index(es, before.snapshot.locator_for(prev_excerpt_id), Bias::Right, 0);
        lemma_insert_text(es, p, news);
        lemma_text_is_joined(self.snapshot);
    }

    /// The identifiers that are handed out next follow the greatest that was handed
    /// out so far, whether its excerpt is still there or not, and start with 1 where
    /// none was: none of them was handed out before.
    pub proof fn lemma_new_ids(&self, n: nat)
        requires
            self.wf(),
            next_id(self.snapshot.excerpt_ids@) + n <= usize::MAX,
        ensures
            ({
                let ids = self.snapshot.excerpt_ids@;
                let new = new_ids(ids, n);
                &&& new.len() == n
                &&& ids.len() == 0 ==> forall|k: int| 0 <= k < n ==> (#[trigger] new[k]).0 == 1 + k
                &&& ids.len() > 0 ==> forall|k: int|
                    0 <= k < n ==> (#[trigger] new[k]).0 == ids.last().id.0 + 1 + k
                &&& forall|j: int|
                    0 <= j < ids.len() ==> (#[trigger] ids[j]).id.0 <= ids.last().id.0
                &&& forall|j: int, k: int|
                    0 <= j < ids.len() && 0 <= k < n ==> (#[trigger] ids[j]).id != (
                    #[trigger] new[k])
            }),
    {
        let ids = self.snapshot.excerpt_ids@;
        assert forall|j: int| 0 <= j < ids.len() implies (#[trigger] ids[j]).id.0
            <= ids.last().id.0 by {
            if j < ids.len() - 1 {
                assert(ids[j].id.0 < ids[ids.len() - 1].id.0);
            }
        }
    }

    /// Puts new excerpts of a buffer behind the first `p`.
    fn put_excerpts<O: ToBufferOffset>(
        &mut self,
        p: usize,
        buffer: &Arc<BufferSnapshot>,
        news: Vec<Excerpt>,
        Ghost(ranges): Ghost<Seq<(ExcerptId, ExcerptRange<O>)>>,
    )
        requires
            old(self).wf(),
            !old(self).singleton,
            p <= old(self).snapshot.excerpts@.len(),
            buffer.wf(),
            forall|s: int|
                0 <= s < old(self).buffers@.len() && (#[trigger] old(
                    self,
                ).buffers@[s]).buffer.remote_id == buffer.remote_id ==> old(self).buffers@[s].buffer
                    == *buffer,
            news_fit(old(self).snapshot.excerpts@, p as int, news@, ranges, *buffer),
            news@.len() == ranges.len(),
            ranges.len() > 0,
            ids_follow(old(self).snapshot.excerpt_ids@, ranges),
            excerpts_text(
                spliced(old(self).snapshot.excerpts@, p as int, news@),
            ).len() <= MAX_TEXT_LEN,
        ensures
            final(self).wf(),
            final(self).snapshot.excerpts@ == spliced(
                old(self).snapshot.excerpts@,
                p as int,
                news@,
            ),
            news@ == final(self).snapshot.excerpts@.subrange(p as int, p + ranges.len()),
            entries_follow(
                old(self).snapshot.excerpt_ids@,
                final(self).snapshot.excerpt_ids@,
                news@,
            ),
            final(self).snapshot.same_but_excerpts(&old(self).snapshot),
            final(self).same_but_excerpts(old(self)),
            final(self).published == old(self).published,
            final(self).events == old(self).events,
    {
        let ghost before = *self;
        let ghost es = self.snapshot.excerpts@;
        let ghost ids = self.snapshot.excerpt_ids@;
        let ghost prefix = with_last_newline(es.take(p as int), true);
        let ghost new_es = news@;
        proof {
            reveal(news_fit);
            lemma_with_last_newline(es, p as int);
            assert forall|k: int| 0 <= k < new_es.len() implies (#[trigger] new_es[k]).buffer
                == *buffer && new_es[k].buffer_id == buffer.remote_id by {
                assert(is_new_excerpt(
                    new_es[k],
                    k,
                    ranges,
                    *buffer,
                    place_before(es, p as int),
                    place_at(es, p as int),
                    p < es.len(),
                ));
            }
        }
        self.put_places(p, buffer, &news);
        let mut k: usize = 0;
        while k < news.len()
            invariant
                k <= news@.len(),
                new_es == news@,
                entries_follow(ids, self.snapshot.excerpt_ids@, new_es.take(k as int)),
                self.snapshot.excerpts == before.snapshot.excerpts,
                self.snapshot.same_but_excerpts(&before.snapshot),
                self.same_but_excerpts(&before),
                self.published == before.published,
                self.events == before.events,
                buffers_wf(spliced(es, p as int, new_es), self.buffers@),
            decreases news@.len() - k,
        {
            let ghost so_far = self.snapshot.excerpt_ids@;
            self.snapshot.excerpt_ids.push(
                ExcerptIdMapping { id: news[k].id, locator: news[k].locator.clone() },
            );
            proof {
                let entries = self.snapshot.excerpt_ids@;
                let done = new_es.take(k + 1);
                assert forall|j: int| 0 <= j < done.len() implies maps(
                    entries,
                    ids.len() + j,
                    #[trigger] done[j],
                ) by {
                    if j < k {
                        assert(new_es.take(k as int)[j] == done[j]);
                        assert(maps(so_far, ids.len() + j, done[j]));
                    }
                }
            }
            k = k + 1;
        }
        let mut added = news;
        let mut suffix = self.snapshot.excerpts.split_off(p);
        if p > 0 {
            self.snapshot.excerpts[p - 1].has_trailing_newline = true;
        }
        assert(self.snapshot.excerpts@ =~= prefix);
        self.snapshot.excerpts.append(&mut added);
        self.snapshot.excerpts.append(&mut suffix);
        proof {
            reveal(spliced);
            assert(self.snapshot.excerpts@ =~= spliced(es, p as int, new_es));
            assert(new_es.take(new_es.len() as int) =~= new_es);
            lemma_inserted(
                es,
                p as int,
                new_es,
                ranges,
                *buffer,
                ids,
                self.snapshot.excerpt_ids@,
            );
        }
    }

    /// Adds the places of new excerpts of a buffer to the buffer's state.
    fn put_places(&mut self, p: usize, buffer: &Arc<BufferSnapshot>, news: &Vec<Excerpt>)
        requires
            excerpts_wf(old(self).snapshot.excerpts@),
            buffers_wf(old(self).snapshot.excerpts@, old(self).buffers@),
            p <= old(self).snapshot.excerpts@.len(),
            buffer.wf(),
            news@.len() > 0,
            forall|s: int|
                0 <= s < old(self).buffers@.len() && (#[trigger] old(
                    self,
                ).buffers@[s]).buffer.remote_id == buffer.remote_id ==> old(self).buffers@[s].buffer
                    == *buffer,
            forall|k: int|
                0 <= k < news@.len() ==> (#[trigger] news@[k]).buffer == *buffer
                    && news@[k].buffer_id == buffer.remote_id,
        ensures
            buffers_wf(
                spliced(old(self).snapshot.excerpts@, p as int, news@),
                final(self).buffers@,
            ),
            final(self).snapshot == old(self).snapshot,
            final(self).same_but_excerpts(old(self)),
            final(self).published == old(self).published,
            final(self).events == old(self).events,
    {
        let ghost before = *self;
        let ghost es = self.snapshot.excerpts@;
        let ghost states = self.buffers@;
        let buffer_id = buffer.remote_id;
        let state_ix: usize = match self.buffer_state_index(buffer_id) {
            Some(s) => s,
            None => {
                let s: usize = self.buffers.len();
                self.buffers.push(BufferState { buffer: share(buffer), excerpts: Vec::new() });
                s
            },
        };
        let q: usize = count_of_buffer(&self.snapshot.excerpts, p, buffer_id);
        let ghost low = locators_of(es.take(p as int), buffer_id);
        let ghost high = locators_of(es.skip(p as int), buffer_id);
        let ghost extended = self.buffers@;
        proof {
            reveal(buffers_wf);
            let base = digits_of(self.buffers@[state_ix as int].excerpts@);
            lemma_locators_concat(es.take(p as int), es.skip(p as int), buffer_id);
            assert(es.take(p as int) + es.skip(p as int) =~= es);
            if state_ix < states.len() {
                assert(state_fits(es, states[state_ix as int]));
            } else {
                lemma_no_locators(es, states, buffer_id);
                assert(base =~= locators_of(es, buffer_id));
            }
            assert(base =~= low + places_of(news@.take(0)) + high);
        }
        let mut k: usize = 0;
        while k < news.len()
            invariant
                k <= news@.len(),
                q == low.len(),
                state_ix < extended.len(),
                extended.len() == self.buffers@.len(),
                self.buffers@[state_ix as int].buffer == extended[state_ix as int].buffer,
                forall|t: int|
                    0 <= t < extended.len() && t != state_ix ==> #[trigger] self.buffers@[t]
                        == extended[t],
                digits_of(self.buffers@[state_ix as int].excerpts@) == low + places_of(
                    news@.take(k as int),
                ) + high,
                self.snapshot == before.snapshot,
                self.same_but_excerpts(&before),
                self.published == before.published,
                self.events == before.events,
            decreases news@.len() - k,
        {
            let ghost locators = self.buffers@[state_ix as int].excerpts@;
            assert(digits_of(locators).len() == locators.len());
            assert(q + k <= self.buffers@[state_ix as int].excerpts.len());
            self.buffers[state_ix].excerpts.insert(q + k, news[k].locator.clone());
            proof {
                let grown = self.buffers@[state_ix as int].excerpts@;
                assert(digits_of(grown) =~= digits_of(locators).insert(
                    q + k,
                    news@[k as int].locator@,
                ));
                assert(digits_of(grown) =~= low + places_of(news@.take(k + 1)) + high);
            }
            k = k + 1;
        }
        proof {
            assert(news@.take(news@.len() as int) =~= news@);
            lemma_insert_buffers(
                es,
                p as int,
                news@,
                states,
                self.buffers@,
                state_ix as int,
                *buffer,
            );
        }
    }
}

impl MultiBufferSnapshot {
    /// The excerpts that show ranges of a buffer behind the first `p`, what an
    /// event says of them, and the length of their text.
    fn make_excerpts<O: ToBufferOffset>(
        &self,
        p: usize,
        buffer: &Arc<BufferSnapshot>,
        ranges: &Vec<(ExcerptId, ExcerptRange<O>)>,
    ) -> (r: (Vec<Excerpt>, Vec<(ExcerptId, ExcerptRange<TextAnchor>)>, usize))
        requires
            self.wf(),
            p <= self.excerpts@.len(),
            buffer.wf(),
            forall|j: int|
                0 <= j < ranges@.len() ==> showable((#[trigger] ranges@[j]).1, **buffer),
            ranges@.len() > 0,
            room_for(ranges@, **buffer) <= MAX_TEXT_LEN,
        ensures
            news_fit(self.excerpts@, p as int, r.0@, ranges@, *buffer),
            r.0@.len() == ranges@.len(),
            r.1@ == added_excerpts(r.0@),
            r.2 == excerpts_text(r.0@).len(),
            r.2 == room_for(ranges@, **buffer) - if p < self.excerpts@.len() {
                0int
            } else {
                1int
            },
    {
        let ghost es = self.excerpts@;
        let is_followed: bool = p < self.excerpts.len();
        proof {
            reveal(news_fit);
            lemma_places(es, p as int);
            lemma_room_grows(ranges@, *buffer, 0);
        }
        let next_locator = if p < self.excerpts.len() {
            self.excerpts[p].locator.clone()
        } else {
            Locator::max()
        };
        let mut prev_locator = if p > 0 {
            self.excerpts[p - 1].locator.clone()
        } else {
            Locator::min()
        };
        let mut news: Vec<Excerpt> = Vec::new();
        let mut added: Vec<(ExcerptId, ExcerptRange<TextAnchor>)> = Vec::new();
        let mut len: usize = 0;
        let mut k: usize = 0;
        assert(ranges@.take(0) =~= Seq::<(ExcerptId, ExcerptRange<O>)>::empty());
        while k < ranges.len()
            invariant
                self.wf(),
                es == self.excerpts@,
                p <= es.len(),
                k <= ranges@.len(),
                buffer.wf(),
                forall|j: int|
                    0 <= j < ranges@.len() ==> showable((#[trigger] ranges@[j]).1, **buffer),
                room_for(ranges@, **buffer) <= MAX_TEXT_LEN,
                is_followed == (p < es.len()),
                news@.len() == k,
                news_fit(es, p as int, news@, ranges@, *buffer),
                added@ == added_excerpts(news@),
                len == excerpts_text(news@).len(),
                len == room_for(ranges@.take(k as int), **buffer) - if k == ranges@.len()
                    && !is_followed {
                    1int
                } else {
                    0int
                },
                prev_locator@ == last_place(es, p as int, news@),
                next_locator@ == place_at(es, p as int),
                digits_before(prev_locator@, next_locator@),
                ends_nonzero(next_locator@),
            decreases ranges@.len() - k,
        {
            let ghost before = news@;
            let (id, range) = &ranges[k];
            let locator = Locator::between(&prev_locator, &next_locator);
            assert(showable(ranges@[k as int].1, **buffer));
            let anchored_range = anchor_range(range, buffer);
            added.push((*id, anchored_range.clone()));
            let has_newline: bool = k + 1 < ranges.len() || is_followed;
            let excerpt = Excerpt::new(
                *id,
                locator.clone(),
                buffer.remote_id,
                share(buffer),
                anchored_range,
                has_newline,
            );
            proof {
                lemma_room_grows(ranges@, *buffer, k as int);
                lemma_room_grows(ranges@, *buffer, k + 1);
                lemma_excerpt_position(excerpt, 0);
                lemma_summary_sound(excerpt.bytes());
                lemma_news_push(es, p as int, before, ranges@, *buffer, excerpt);
                assert(before.push(excerpt).drop_last() =~= before);
            }
            len = len + excerpt.text_summary.len + if has_newline {
                1
            } else {
                0
            };
            news.push(excerpt);
            assert(added@ =~= added_excerpts(news@));
            prev_locator = locator;
            k = k + 1;
        }
        assert(ranges@.take(ranges@.len() as int) =~= ranges@);
        (news, added, len)
    }
}

/// Excerpts that were there before, and the new ones, have their entries.
proof fn lemma_still_mapped(
    es: Seq<Excerpt>,
    ids: Seq<ExcerptIdMapping>,
    new_ids: Seq<ExcerptIdMapping>,
    p: int,
    news: Seq<Excerpt>,
    i: int,
)
    requires
        excerpts_wf(es),
        0 <= p <= es.len(),
        entries_follow(ids, new_ids, news),
        forall|j: int| 0 <= j < es.len() ==> is_mapped(ids, #[trigger] es[j]),
        0 <= i < es.len() + news.len(),
    ensures
        is_mapped(new_ids, spliced(es, p, news)[i]),
{
    let prefix = with_last_newline(es.take(p), true);
    reveal(spliced);
    let all = spliced(es, p, news);
    lemma_with_last_newline(es, p);
    if i < p {
        assert(is_mapped(ids, es[i]));
        let k = choose|k: int| maps(ids, k, es[i]);
        assert(all[i] == prefix[i]);
        assert(maps(new_ids, k, all[i]));
    } else if i < p + news.len() {
        assert(all[i] == news[i - p]);
        assert(maps(new_ids, ids.len() + (i - p), all[i]));
    } else {
        let e = es[i - news.len()];
        assert(is_mapped(ids, e));
        let k = choose|k: int| maps(ids, k, e);
        assert(all[i] == e);
        assert(maps(new_ids, k, all[i]));
    }
}

/// A buffer without a state has no excerpts.
proof fn lemma_no_locators(es: Seq<Excerpt>, states: Seq<BufferState>, buffer_id: BufferId)
    requires
        excerpts_wf(es),
        forall|i: int| 0 <= i < es.len() ==> has_state(states, #[trigger] es[i]),
        forall|t: int|
            0 <= t < states.len() ==> (#[trigger] states[t]).buffer.remote_id != buffer_id,
    ensures
        locators_of(es, buffer_id).len() == 0,
{
    assert forall|i: int| 0 <= i < es.len() implies (#[trigger] es[i]).buffer_id != buffer_id by {
        assert(has_state(states, es[i]));
        let t = choose|t: int| state_of(states, t, es[i]);
        assert(es[i].wf());
    }
    lemma_locators_of_none(es, buffer_id);
}

proof fn lemma_locators_of_none(es: Seq<Excerpt>, buffer_id: BufferId)
    requires
        forall|i: int| 0 <= i < es.len() ==> (#[trigger] es[i]).buffer_id != buffer_id,
    ensures
        locators_of(es, buffer_id).len() == 0,
    decreases es.len(),
{
    if es.len() > 0 {
        assert(es.last().buffer_id != buffer_id);
        lemma_locators_of_none(es.drop_last(), buffer_id);
    }
}

} // verus!
