//! Whether there is room for changes that are yet to be drawn.

use std::sync::Arc;
use vstd::prelude::*;

use crate::buffer::BufferSnapshot;
use crate::excerpt::{excerpts_text, Excerpt, ExcerptId, ExcerptRange};
use crate::multi_buffer::insert::{
    is_new_excerpt, next_id, numbered, place_at, place_before, room_for, spliced,
    with_last_newline,
};
use crate::multi_buffer::mutation::Mutation;
use crate::multi_buffer::named::lemma_expanded_covers;
use crate::multi_buffer::push_many::lemma_has_locator;
use crate::multi_buffer::random::{always_fits, goes_through, is_held, is_made, is_text_range};
use crate::multi_buffer::removed::{kept_of, lemma_removed_excerpts};
use crate::multi_buffer::{
    buffers_wf, digits_of, has_state, state_fits, state_of, states_distinct, BufferState,
    MultiBuffer,
};
use crate::snapshot::excerpts_wf;
use crate::snapshot::ids::lemma_locator_index;
use crate::text::{Bias, MAX_TEXT_LEN};

verus! {

/// How long the text would be, did each excerpt show all of its buffer and a line
/// break follow it.
pub open spec fn whole_len(es: Seq<Excerpt>) -> int
    decreases es.len(),
{
    if es.len() == 0 {
        0
    } else {
        whole_len(es.drop_last()) + es.last().buffer.bytes().len() + 1
    }
}

/// By how much a drawn change lets that length grow at most, where no buffer is
/// longer than `longest`: four ranges of a buffer are shown.
pub open spec fn most_growth(longest: int) -> int {
    4 * (longest + 1)
}

/// Whether no excerpt is of a buffer that is longer than `longest`.
pub open spec fn none_longer(es: Seq<Excerpt>, longest: int) -> bool {
    forall|i: int| 0 <= i < es.len() ==> (#[trigger] es[i]).buffer.bytes().len() <= longest
}

/// Whether no buffer that is yet to be shown is longer than `longest`.
pub open spec fn no_fresh_longer(fresh: Seq<Arc<BufferSnapshot>>, longest: int) -> bool {
    forall|j: int| 0 <= j < fresh.len() ==> (#[trigger] fresh[j]).bytes().len() <= longest
}

/// The length of the longest of buffers.
pub open spec fn longest_of(buffers: Seq<Arc<BufferSnapshot>>) -> int
    decreases buffers.len(),
{
    if buffers.len() == 0 {
        0
    } else {
        let rest = longest_of(buffers.drop_last());
        let len = buffers.last().bytes().len() as int;
        if len > rest {
            len
        } else {
            rest
        }
    }
}

/// The buffers that excerpts show.
pub open spec fn buffers_of(es: Seq<Excerpt>) -> Seq<Arc<BufferSnapshot>> {
    es.map_values(|e: Excerpt| e.buffer)
}

/// The length of the longest of the buffers that are shown or yet to be shown.
pub open spec fn longest_buffer(es: Seq<Excerpt>, fresh: Seq<Arc<BufferSnapshot>>) -> int {
    let shown = longest_of(buffers_of(es));
    let unshown = longest_of(fresh);
    if shown > unshown {
        shown
    } else {
        unshown
    }
}

/// No buffer is longer than the longest, which is one of them.
proof fn lemma_longest_of(buffers: Seq<Arc<BufferSnapshot>>)
    ensures
        0 <= longest_of(buffers),
        no_fresh_longer(buffers, longest_of(buffers)),
        buffers.len() > 0 ==> exists|j: int|
            0 <= j < buffers.len() && (#[trigger] buffers[j]).bytes().len() == longest_of(buffers),
    decreases buffers.len(),
{
    if buffers.len() > 0 {
        let front = buffers.drop_last();
        let n = front.len() as int;
        lemma_longest_of(front);
        assert(buffers[n] == buffers.last());
        assert forall|j: int| 0 <= j < buffers.len() implies (#[trigger] buffers[j]).bytes().len()
            <= longest_of(buffers) by {
            if j < n {
                assert(front[j].bytes().len() <= longest_of(front));
            }
        }
        if longest_of(buffers) == buffers.last().bytes().len() {
            assert(buffers[n].bytes().len() == longest_of(buffers));
        } else {
            let j = choose|j: int|
                0 <= j < front.len() && (#[trigger] front[j]).bytes().len() == longest_of(front);
            assert(buffers[j].bytes().len() == longest_of(buffers));
        }
    }
}

/// Whether counts and text stay within bounds, whichever so many changes are drawn,
/// where no buffer is longer than `longest`.
pub open spec fn has_room_left(buffer: MultiBuffer, longest: int, count: int) -> bool {
    &&& whole_len(buffer.snapshot.excerpts@) + count * most_growth(longest) <= MAX_TEXT_LEN
    &&& buffer.snapshot.trailing_excerpt_update_count + count <= usize::MAX
    &&& next_id(buffer.snapshot.excerpt_ids@) + 4 * count <= usize::MAX
}

/// Excerpts are no longer than their buffers.
proof fn lemma_whole_len(es: Seq<Excerpt>)
    requires
        forall|i: int|
            0 <= i < es.len() ==> (#[trigger] es[i]).bytes().len()
                <= es[i].buffer.bytes().len(),
    ensures
        0 <= excerpts_text(es).len() <= whole_len(es),
    decreases es.len(),
{
    if es.len() > 0 {
        lemma_whole_len(es.drop_last());
        assert(es.last().bytes().len() <= es.last().buffer.bytes().len());
    }
}

/// The length depends on the buffers alone.
proof fn lemma_whole_len_same(a: Seq<Excerpt>, b: Seq<Excerpt>)
    requires
        a.len() == b.len(),
        forall|i: int| 0 <= i < a.len() ==> (#[trigger] a[i]).buffer == b[i].buffer,
    ensures
        whole_len(a) == whole_len(b),
    decreases a.len(),
{
    if a.len() > 0 {
        lemma_whole_len_same(a.drop_last(), b.drop_last());
        assert(a.last().buffer == b.last().buffer);
    }
}

/// The lengths of two lists of excerpts add up.
proof fn lemma_whole_len_concat(a: Seq<Excerpt>, b: Seq<Excerpt>)
    ensures
        whole_len(a + b) == whole_len(a) + whole_len(b),
    decreases b.len(),
{
    if b.len() == 0 {
        assert(a + b =~= a);
    } else {
        lemma_whole_len_concat(a, b.drop_last());
        assert((a + b).drop_last() =~= a + b.drop_last());
        assert((a + b).last() == b.last());
    }
}

/// Excerpts of short buffers do not come to much.
proof fn lemma_whole_len_at_most(es: Seq<Excerpt>, longest: int)
    requires
        none_longer(es, longest),
        0 <= longest,
    ensures
        0 <= whole_len(es) <= es.len() * (longest + 1),
    decreases es.len(),
{
    if es.len() > 0 {
        let front = es.drop_last();
        assert forall|i: int| 0 <= i < front.len() implies (
        #[trigger] front[i]).buffer.bytes().len() <= longest by {
            assert(es[i].buffer.bytes().len() <= longest);
        }
        lemma_whole_len_at_most(front, longest);
        assert(es[es.len() - 1].buffer.bytes().len() <= longest);
        let n = front.len() as int;
        assert((n + 1) * (longest + 1) == n * (longest + 1) + (longest + 1)) by (nonlinear_arith);
    }
}

/// What is kept was there before.
proof fn lemma_kept_whole_len(es: Seq<Excerpt>, ids: Seq<ExcerptId>, longest: int)
    requires
        none_longer(es, longest),
    ensures
        whole_len(kept_of(es, ids)) <= whole_len(es),
        none_longer(kept_of(es, ids), longest),
    decreases es.len(),
{
    if es.len() > 0 {
        let front = es.drop_last();
        assert forall|i: int| 0 <= i < front.len() implies (
        #[trigger] front[i]).buffer.bytes().len() <= longest by {
            assert(es[i].buffer.bytes().len() <= longest);
        }
        lemma_kept_whole_len(front, ids, longest);
        let kept = kept_of(front, ids);
        assert(kept.push(es.last()).drop_last() =~= kept);
        assert(es[es.len() - 1].buffer.bytes().len() <= longest);
    }
}

/// Ranges of a short buffer do not take much room.
proof fn lemma_room_at_most(
    ranges: Seq<(ExcerptId, ExcerptRange<usize>)>,
    buffer: BufferSnapshot,
    longest: int,
)
    requires
        forall|k: int|
            0 <= k < ranges.len() ==> is_text_range(
                buffer.bytes(),
                (#[trigger] ranges[k]).1.context,
            ),
        buffer.bytes().len() <= longest,
    ensures
        room_for(ranges, buffer) <= ranges.len() * (longest + 1),
    decreases ranges.len(),
{
    if ranges.len() > 0 {
        let front = ranges.drop_last();
        assert forall|k: int| 0 <= k < front.len() implies is_text_range(
            buffer.bytes(),
            (#[trigger] front[k]).1.context,
        ) by {
            assert(is_text_range(buffer.bytes(), ranges[k].1.context));
        }
        lemma_room_at_most(front, buffer, longest);
        assert(is_text_range(buffer.bytes(), ranges[ranges.len() - 1].1.context));
        let n = front.len() as int;
        assert((n + 1) * (longest + 1) == n * (longest + 1) + (longest + 1)) by (nonlinear_arith);
    }
}

/// A buffer that is known is one that an excerpt shows.
proof fn lemma_held_shown(
    es: Seq<Excerpt>,
    states: Seq<BufferState>,
    buffer: Arc<BufferSnapshot>,
) -> (i: int)
    requires
        excerpts_wf(es),
        buffers_wf(es, states),
        is_held(states, buffer),
    ensures
        0 <= i < es.len(),
        es[i].buffer == buffer,
{
    reveal(buffers_wf);
    let s = choose|s: int| 0 <= s < states.len() && (#[trigger] states[s]).buffer == buffer;
    assert(state_fits(es, states[s]));
    assert(digits_of(states[s].excerpts@).len() > 0);
    let i = lemma_has_locator(es, buffer.remote_id);
    assert(es[i].wf());
    assert(has_state(states, es[i]));
    let t = choose|t: int| state_of(states, t, es[i]);
    assert(states_distinct(states));
    if t < s {
        assert(states[t].buffer.remote_id != states[s].buffer.remote_id);
    }
    if s < t {
        assert(states[s].buffer.remote_id != states[t].buffer.remote_id);
    }
    i
}

/// A change that can come fits where there is room for it.
proof fn lemma_drawn_fits(
    before: MultiBuffer,
    mutation: Mutation,
    max_excerpts: int,
    fresh: Arc<BufferSnapshot>,
    longest: int,
    count: int,
)
    requires
        before.wf(),
        before.can_come(mutation, max_excerpts, fresh),
        none_longer(before.snapshot.excerpts@, longest),
        fresh.bytes().len() <= longest,
        count >= 1,
        has_room_left(before, longest, count),
    ensures
        before.fits(mutation),
        mutation matches Mutation::Insert { buffer, ranges } ==> buffer.bytes().len() <= longest,
{
    let es = before.snapshot.excerpts@;
    assert(count * most_growth(longest) >= most_growth(longest)) by (nonlinear_arith)
        requires
            count >= 1,
            most_growth(longest) >= 0,
    ;
    match mutation {
        Mutation::Expand { ids, line_count } => {
            let grown = before.snapshot.expansion(ids@, line_count as int, line_count as int);
            assert forall|i: int| 0 <= i < grown.len() implies (#[trigger] grown[i]).bytes().len()
                <= grown[i].buffer.bytes().len() && grown[i].buffer == es[i].buffer by {
                assert(es[i].wf());
                assert(es[i].buffer.wf());
                lemma_expanded_covers(es[i], line_count as int, line_count as int);
            }
            lemma_whole_len(grown);
            lemma_whole_len_same(grown, es);
        },
        Mutation::Insert { buffer, ranges } => {
            if buffer != fresh {
                let i = lemma_held_shown(es, before.buffers@, buffer);
                assert(es[i].buffer.bytes().len() <= longest);
            }
            let numbers = numbered(before.snapshot.excerpt_ids@, ranges@);
            assert forall|k: int| 0 <= k < numbers.len() implies is_text_range(
                buffer.bytes(),
                (#[trigger] numbers[k]).1.context,
            ) by {
                assert(is_text_range(buffer.bytes(), ranges@[k].context));
            }
            let shown: &BufferSnapshot = &buffer;
            lemma_room_at_most(numbers, *shown, longest);
            let n = ranges@.len() as int;
            assert(n * (longest + 1) <= 4 * (longest + 1)) by (nonlinear_arith)
                requires
                    n <= 4,
                    longest >= 0,
            ;
            assert forall|i: int| 0 <= i < es.len() implies (#[trigger] es[i]).bytes().len()
                <= es[i].buffer.bytes().len() by {
                assert(es[i].wf());
                assert(es[i].buffer.wf());
            }
            lemma_whole_len(es);
        },
        _ => {},
    }
}

/// A change that can come leaves room for one less.
proof fn lemma_room_after(
    before: MultiBuffer,
    after: MultiBuffer,
    mutation: Mutation,
    max_excerpts: int,
    fresh: Arc<BufferSnapshot>,
    longest: int,
    count: int,
)
    requires
        before.wf(),
        before.can_come(mutation, max_excerpts, fresh),
        none_longer(before.snapshot.excerpts@, longest),
        fresh.bytes().len() <= longest,
        count >= 1,
        has_room_left(before, longest, count),
        after.has_applied(&before, mutation),
    ensures
        none_longer(after.snapshot.excerpts@, longest),
        has_room_left(after, longest, count - 1),
{
    let es = before.snapshot.excerpts@;
    let news = after.snapshot.excerpts@;
    let growth = most_growth(longest);
    lemma_drawn_fits(before, mutation, max_excerpts, fresh, longest, count);
    assert(count * growth == (count - 1) * growth + growth) by (nonlinear_arith);
    lemma_whole_len_at_most(es, longest);
    match mutation {
        Mutation::Clear => {},
        Mutation::Expand { ids, line_count } => {
            if line_count > 0 {
                assert forall|i: int| 0 <= i < news.len() implies (#[trigger] news[i]).buffer
                    == es[i].buffer by {}
                lemma_whole_len_same(news, es);
                assert forall|i: int| 0 <= i < news.len() implies (
                #[trigger] news[i]).buffer.bytes().len() <= longest by {
                    assert(es[i].buffer.bytes().len() <= longest);
                }
            }
        },
        Mutation::Insert { buffer, ranges } => {
            if ranges@.len() > 0 {
                lemma_room_after_insertion(before, after, buffer, ranges@, longest);
            }
        },
        Mutation::Remove { ids } => {
            lemma_removed_excerpts(before.snapshot, ids@);
            lemma_kept_whole_len(es, ids@, longest);
            let kept = kept_of(es, ids@);
            lemma_whole_len_same(with_last_newline(kept, false), kept);
            assert forall|i: int| 0 <= i < news.len() implies (
            #[trigger] news[i]).buffer.bytes().len() <= longest by {
                assert(news[i].buffer == kept[i].buffer);
                assert(kept[i].buffer.bytes().len() <= longest);
            }
        },
    }
}

/// What ranges of a short buffer that are shown behind all excerpts come to.
#[verifier::rlimit(60)]
proof fn lemma_room_after_insertion(
    before: MultiBuffer,
    after: MultiBuffer,
    buffer: Arc<BufferSnapshot>,
    ranges: Seq<ExcerptRange<usize>>,
    longest: int,
)
    requires
        before.wf(),
        0 < ranges.len() < 5,
        none_longer(before.snapshot.excerpts@, longest),
        buffer.bytes().len() <= longest,
        next_id(before.snapshot.excerpt_ids@) + ranges.len() <= usize::MAX,
        after.shows_more(
            &before,
            ExcerptId(usize::MAX),
            buffer,
            numbered(before.snapshot.excerpt_ids@, ranges),
        ),
    ensures
        none_longer(after.snapshot.excerpts@, longest),
        whole_len(after.snapshot.excerpts@) <= whole_len(before.snapshot.excerpts@)
            + most_growth(longest),
        next_id(after.snapshot.excerpt_ids@) == next_id(before.snapshot.excerpt_ids@)
            + ranges.len(),
{
    let es = before.snapshot.excerpts@;
    let all = after.snapshot.excerpts@;
    let ids = before.snapshot.excerpt_ids@;
    let numbers = numbered(ids, ranges);
    let n = ranges.len() as int;
    let p = before.insertion_index(ExcerptId(usize::MAX));
    lemma_locator_index(es, before.snapshot.locator_for(ExcerptId(usize::MAX)), Bias::Right, 0);
    let news = all.subrange(p, p + n);
    assert forall|k: int| 0 <= k < n implies (#[trigger] news[k]).buffer == buffer && news[k].id
        == numbers[k].0 by {
        assert(is_new_excerpt(
            news[k],
            k,
            numbers,
            buffer,
            place_before(es, p),
            place_at(es, p),
            p < es.len(),
        ));
    }
    reveal(spliced);
    let prefix = with_last_newline(es.take(p), true);
    assert(all == prefix + news + es.skip(p));
    lemma_whole_len_concat(prefix, news);
    lemma_whole_len_concat(prefix + news, es.skip(p));
    lemma_whole_len_same(prefix, es.take(p));
    lemma_whole_len_concat(es.take(p), es.skip(p));
    assert(es.take(p) + es.skip(p) =~= es);
    assert(none_longer(news, longest));
    lemma_whole_len_at_most(news, longest);
    assert(n * (longest + 1) <= 4 * (longest + 1)) by (nonlinear_arith)
        requires
            n <= 4,
            longest >= 0,
    ;
    assert forall|i: int| 0 <= i < all.len() implies (#[trigger] all[i]).buffer.bytes().len()
        <= longest by {
        if i < p {
            assert(all[i].buffer == es[i].buffer);
        } else if i < p + n {
            assert(all[i] == news[i - p]);
        } else {
            assert(all[i] == es[i - n]);
        }
    }
    assert(news[n - 1].id == numbers[n - 1].0);
}

/// Where there is room left, every change that can come fits.
pub proof fn lemma_room_for_all(
    before: MultiBuffer,
    mutation_count: int,
    max_excerpts: int,
    fresh: Seq<Arc<BufferSnapshot>>,
    longest: int,
)
    requires
        before.wf(),
        mutation_count <= fresh.len(),
        none_longer(before.snapshot.excerpts@, longest),
        no_fresh_longer(fresh, longest),
        has_room_left(before, longest, mutation_count),
    ensures
        always_fits(before, mutation_count, max_excerpts, fresh),
{
    assert forall|after: MultiBuffer, made: Seq<Mutation>, mutation: Mutation| #[trigger]
        is_made(before, after, made, max_excerpts, fresh) && made.len() < mutation_count
            && #[trigger] after.can_come(
            mutation,
            max_excerpts,
            fresh[made.len() as int],
        ) implies after.fits(mutation) by {
        let trace = choose|trace: Seq<MultiBuffer>|
            {
                &&& #[trigger] goes_through(trace, made, max_excerpts, fresh)
                &&& trace[0] == before
                &&& trace.last() == after
            };
        let n = made.len() as int;
        lemma_room_on_the_way(trace, made, mutation_count, max_excerpts, fresh, longest, n);
        assert(trace[n].wf());
        assert(fresh[n].bytes().len() <= longest);
        lemma_drawn_fits(
            after,
            mutation,
            max_excerpts,
            fresh[n],
            longest,
            mutation_count - n,
        );
    }
}

/// There is room left for the changes that are yet to come.
proof fn lemma_room_on_the_way(
    trace: Seq<MultiBuffer>,
    made: Seq<Mutation>,
    mutation_count: int,
    max_excerpts: int,
    fresh: Seq<Arc<BufferSnapshot>>,
    longest: int,
    n: int,
)
    requires
        goes_through(trace, made, max_excerpts, fresh),
        0 <= n <= made.len() <= mutation_count <= fresh.len(),
        none_longer(trace[0].snapshot.excerpts@, longest),
        no_fresh_longer(fresh, longest),
        has_room_left(trace[0], longest, mutation_count),
    ensures
        none_longer(trace[n].snapshot.excerpts@, longest),
        has_room_left(trace[n], longest, mutation_count - n),
    decreases n,
{
    if n > 0 {
        let c = n - 1;
        lemma_room_on_the_way(trace, made, mutation_count, max_excerpts, fresh, longest, c);
        assert(trace[c].can_come(made[c], max_excerpts, fresh[c]));
        assert(trace[c].wf());
        assert(fresh[c].bytes().len() <= longest);
        lemma_room_after(
            trace[c],
            trace[c + 1],
            made[c],
            max_excerpts,
            fresh[c],
            longest,
            mutation_count - c,
        );
    }
}

/// A multibuffer that holds nothing has room for up to five changes that show short
/// buffers.
pub proof fn lemma_room_for_few(
    empty: MultiBuffer,
    mutation_count: int,
    max_excerpts: int,
    fresh: Seq<Arc<BufferSnapshot>>,
)
    requires
        empty.wf(),
        empty.snapshot.excerpts@.len() == 0,
        empty.snapshot.excerpt_ids@.len() == 0,
        empty.snapshot.trailing_excerpt_update_count == 0,
        0 <= mutation_count <= 5,
        mutation_count <= fresh.len(),
        forall|j: int|
            0 <= j < fresh.len() ==> 5 * most_growth((#[trigger] fresh[j]).bytes().len() as int)
                <= MAX_TEXT_LEN,
    ensures
        always_fits(empty, mutation_count, max_excerpts, fresh),
{
    let longest = longest_of(fresh);
    lemma_longest_of(fresh);
    if fresh.len() > 0 {
        let j = choose|j: int| 0 <= j < fresh.len() && (#[trigger] fresh[j]).bytes().len()
            == longest;
        assert(5 * most_growth(fresh[j].bytes().len() as int) <= MAX_TEXT_LEN);
    }
    assert(mutation_count * most_growth(longest) <= 5 * most_growth(longest)) by (nonlinear_arith)
        requires
            mutation_count <= 5,
            most_growth(longest) >= 0,
    ;
    lemma_room_for_all(empty, mutation_count, max_excerpts, fresh, longest);
}

/// The length of the longest of the buffers that are shown or yet to be shown.
fn find_longest(es: &Vec<Excerpt>, fresh: &Vec<Arc<BufferSnapshot>>) -> (r: usize)
    requires
        excerpts_wf(es@),
        forall|j: int| 0 <= j < fresh@.len() ==> (#[trigger] fresh@[j]).wf(),
    ensures
        r == longest_buffer(es@, fresh@),
        r <= MAX_TEXT_LEN,
{
    let mut shown: usize = 0;
    let mut i: usize = 0;
    let ghost of_excerpts = buffers_of(es@);
    assert(of_excerpts.take(0) =~= seq![]);
    while i < es.len()
        invariant
            excerpts_wf(es@),
            of_excerpts == buffers_of(es@),
            i <= es@.len(),
            shown == longest_of(of_excerpts.take(i as int)),
            shown <= MAX_TEXT_LEN,
        decreases es@.len() - i,
    {
        assert(es@[i as int].wf());
        assert(of_excerpts.take(i + 1).drop_last() =~= of_excerpts.take(i as int));
        let buffer: &BufferSnapshot = &es[i].buffer;
        let len: usize = buffer.len();
        if len > shown {
            shown = len;
        }
        i = i + 1;
    }
    assert(of_excerpts.take(of_excerpts.len() as int) =~= of_excerpts);
    let mut unshown: usize = 0;
    let mut j: usize = 0;
    assert(fresh@.take(0) =~= seq![]);
    while j < fresh.len()
        invariant
            forall|j: int| 0 <= j < fresh@.len() ==> (#[trigger] fresh@[j]).wf(),
            j <= fresh@.len(),
            unshown == longest_of(fresh@.take(j as int)),
            unshown <= MAX_TEXT_LEN,
        decreases fresh@.len() - j,
    {
        assert(fresh@[j as int].wf());
        assert(fresh@.take(j + 1).drop_last() =~= fresh@.take(j as int));
        let buffer: &BufferSnapshot = &fresh[j];
        let len: usize = buffer.len();
        if len > unshown {
            unshown = len;
        }
        j = j + 1;
    }
    assert(fresh@.take(fresh@.len() as int) =~= fresh@);
    if shown > unshown {
        shown
    } else {
        unshown
    }
}

/// How long the text would be, did each excerpt show all of its buffer, unless it is
/// more than a text can hold.
fn measure_whole(es: &Vec<Excerpt>) -> (r: Option<usize>)
    requires
        excerpts_wf(es@),
    ensures
        match r {
            Some(len) => len == whole_len(es@) && len <= MAX_TEXT_LEN,
            None => whole_len(es@) > MAX_TEXT_LEN,
        },
{
    let mut len: usize = 0;
    let mut i: usize = 0;
    assert(es@.take(0) =~= seq![]);
    while i < es.len()
        invariant
            excerpts_wf(es@),
            i <= es@.len(),
            len == whole_len(es@.take(i as int)),
            len <= MAX_TEXT_LEN,
        decreases es@.len() - i,
    {
        assert(es@[i as int].wf());
        let buffer: &BufferSnapshot = &es[i].buffer;
        let buffer_len: usize = buffer.len();
        proof {
            assert(es@.take(i + 1).drop_last() =~= es@.take(i as int));
            assert(es@.take(i + 1) + es@.skip(i + 1) =~= es@);
            lemma_whole_len_concat(es@.take(i + 1), es@.skip(i + 1));
            lemma_longest_of(buffers_of(es@.skip(i + 1)));
            let rest = es@.skip(i + 1);
            let longest = longest_of(buffers_of(rest));
            assert forall|k: int| 0 <= k < rest.len() implies (
            #[trigger] rest[k]).buffer.bytes().len() <= longest by {
                assert(buffers_of(rest)[k].bytes().len() <= longest);
            }
            lemma_whole_len_at_most(rest, longest);
        }
        len = len + buffer_len + 1;
        if len > MAX_TEXT_LEN {
            return None;
        }
        i = i + 1;
    }
    assert(es@.take(es@.len() as int) =~= es@);
    Some(len)
}

impl MultiBuffer {
    /// Whether counts and text stay within bounds, whichever so many changes are
    /// drawn: each may show four ranges of the longest buffer, and excerpts may come
    /// to show all of their buffers.
    pub fn has_room_for_changes(
        &self,
        mutation_count: usize,
        fresh: &Vec<Arc<BufferSnapshot>>,
    ) -> (r: bool)
        requires
            self.wf(),
            forall|j: int| 0 <= j < fresh@.len() ==> (#[trigger] fresh@[j]).wf(),
        ensures
            r == has_room_left(
                *self,
                longest_buffer(self.snapshot.excerpts@, fresh@),
                mutation_count as int,
            ),
            r && mutation_count <= fresh@.len() ==> forall|max_excerpts: int| #[trigger]
                always_fits(*self, mutation_count as int, max_excerpts, fresh@),
    {
        let longest: usize = find_longest(&self.snapshot.excerpts, fresh);
        let whole = measure_whole(&self.snapshot.excerpts);
        let growth: u64 = 4 * (longest as u64 + 1);
        let last_id: usize = match self.snapshot.excerpt_ids.last() {
            Some(entry) => entry.id.0,
            None => 0,
        };
        let ghost es = self.snapshot.excerpts@;
        proof {
            let shown = buffers_of(es);
            lemma_longest_of(shown);
            lemma_longest_of(fresh@);
            assert forall|i: int| 0 <= i < es.len() implies (
            #[trigger] es[i]).buffer.bytes().len() <= longest by {
                assert(shown[i].bytes().len() <= longest_of(shown));
            }
            lemma_whole_len_at_most(es, longest as int);
            assert(mutation_count * growth >= 4 * mutation_count) by (nonlinear_arith)
                requires
                    growth >= 4,
            ;
            if has_room_left(*self, longest as int, mutation_count as int) && mutation_count
                <= fresh@.len() {
                assert forall|max_excerpts: int| #[trigger]
                    always_fits(*self, mutation_count as int, max_excerpts, fresh@) by {
                    lemma_room_for_all(
                        *self,
                        mutation_count as int,
                        max_excerpts,
                        fresh@,
                        longest as int,
                    );
                }
            }
        }
        if mutation_count > MAX_TEXT_LEN / 4 {
            return false;
        }
        match whole {
            Some(len) => {
                assert(mutation_count * growth <= 0x2000_0000 * 0x2_0000_0000) by (nonlinear_arith)
                    requires
                        mutation_count <= 0x2000_0000,
                        growth <= 0x2_0000_0000,
                ;
                mutation_count as u64 * growth <= (MAX_TEXT_LEN - len) as u64
                    && self.snapshot.trailing_excerpt_update_count <= usize::MAX - mutation_count
                    && last_id <= usize::MAX - 1 - 4 * mutation_count
            },
            None => {
                assert(mutation_count * growth >= 0);
                false
            },
        }
    }
}

} // verus!
