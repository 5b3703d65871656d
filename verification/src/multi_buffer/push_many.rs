//! Showing ranges of many buffers.

use std::ops::Range;
use std::sync::Arc;
use vstd::prelude::*;

use crate::anchor::Anchor;
use crate::buffer::{BufferId, BufferSnapshot, TextAnchor, ToBufferOffset};
use crate::excerpt::{Excerpt, ExcerptId, ExcerptRange};
use crate::excerpt_ranges::{
    build_excerpt_ranges, groups_of, lemma_groups, lemma_stretches_showable, points_of, rows_ascend,
    stretches_for,
};
use crate::multi_buffer::insert::{
    counts_of, is_new_excerpt, lemma_repeated_len, lemma_repeated_prefix, new_ids, next_id,
    numbered, place_at, place_before, repeated, room_for, showable, spliced,
};
use crate::multi_buffer::{
    buffers_wf, digits_of, has_state, locators_of, state_fits, state_of, BufferState, MultiBuffer,
};
use crate::shared::share;
use crate::snapshot::ids::lemma_locator_index;
use crate::snapshot::{excerpts_wf, maps, ExcerptIdMapping};
use crate::text::{lemma_summary_sound, point_at, Bias, Point, MAX_TEXT_LEN};

verus! {

/// The stretches of a buffer that have been chosen so that some of its ranges can
/// be seen, and how many of the ranges each holds.
#[derive(Debug)]
pub struct BuiltExcerpts {
    pub buffer: Arc<BufferSnapshot>,
    pub ranges: Vec<Range<TextAnchor>>,
    pub excerpt_ranges: Vec<ExcerptRange<Point>>,
    pub range_counts: Vec<usize>,
}

impl BuiltExcerpts {
    /// Chooses the stretches of a buffer that show some of its ranges with
    /// `context_line_count` rows around them.
    pub fn build(
        buffer: Arc<BufferSnapshot>,
        ranges: Vec<Range<TextAnchor>>,
        context_line_count: u32,
    ) -> (r: Self)
        requires
            buffer.wf(),
            rows_ascend(points_of(ranges@, *buffer)),
            context_line_count <= u32::MAX - MAX_TEXT_LEN,
        ensures
            built_fits(r),
            r.buffer == buffer,
            r.ranges@ == ranges@,
            r.excerpt_ranges@ == stretches_for(ranges@, *buffer, context_line_count as int),
            r.range_counts@ == counts_of(groups_of(ranges@, *buffer, context_line_count as int)),
    {
        let snapshot: &BufferSnapshot = &buffer;
        let ghost context = context_line_count as int;
        let ghost groups = groups_of(ranges@, *snapshot, context);
        proof {
            let t = snapshot.bytes();
            assert forall|o: int| 0 <= o <= t.len() implies 0 <= (#[trigger] point_at(t, o)).row
                <= MAX_TEXT_LEN by {
                lemma_summary_sound(t.take(o));
            }
            lemma_stretches_showable(ranges@, *snapshot, context);
        }
        let (excerpt_ranges, range_counts) = build_excerpt_ranges(
            snapshot,
            &ranges,
            context_line_count,
        );
        proof {
            let max_row = point_at(snapshot.bytes(), snapshot.bytes().len() as int).row;
            lemma_groups(points_of(ranges@, *snapshot), 0, context, max_row);
            assert(points_of(ranges@, *snapshot).len() == ranges.len());
            assert(range_counts@ =~= counts_of(groups));
            let ids = new_ids(seq![], groups.len());
            lemma_repeated_len(groups, ids, groups.len() as int);
            assert(groups.take(groups.len() as int) =~= groups);
            assert(ids.take(groups.len() as int) =~= ids);
        }
        BuiltExcerpts { buffer, ranges, excerpt_ranges, range_counts }
    }
}

/// The first of the results that is of a buffer, or their number.
pub open spec fn result_of(results: Seq<BuiltExcerpts>, buffer_id: BufferId, from: int) -> int
    decreases results.len() - from,
{
    if from >= results.len() {
        results.len() as int
    } else if results[from].buffer.remote_id == buffer_id {
        from
    } else {
        result_of(results, buffer_id, from + 1)
    }
}

/// The results by buffer, after they have come in one after the other: a later one
/// takes the place of an earlier one of the same buffer.
pub open spec fn by_buffer(results: Seq<BuiltExcerpts>) -> Seq<BuiltExcerpts>
    decreases results.len(),
{
    if results.len() == 0 {
        seq![]
    } else {
        let front = by_buffer(results.drop_last());
        let i = result_of(front, results.last().buffer.remote_id, 0);
        if i < front.len() {
            front.update(i, results.last())
        } else {
            front.push(results.last())
        }
    }
}

/// The results in the order in which the buffers were asked, each once.
pub open spec fn arranged(buffer_ids: Seq<BufferId>, results: Seq<BuiltExcerpts>) -> Seq<
    BuiltExcerpts,
>
    decreases buffer_ids.len(),
{
    if buffer_ids.len() == 0 {
        seq![]
    } else {
        let i = result_of(results, buffer_ids[0], 0);
        if i < results.len() {
            seq![results[i]] + arranged(buffer_ids.skip(1), results.remove(i))
        } else {
            arranged(buffer_ids.skip(1), results)
        }
    }
}

/// Finds the first of the results that is of a buffer.
fn find_result(results: &Vec<BuiltExcerpts>, buffer_id: BufferId) -> (r: usize)
    ensures
        r == result_of(results@, buffer_id, 0),
        r <= results@.len(),
{
    let mut i: usize = 0;
    while i < results.len() && results[i].buffer.remote_id != buffer_id
        invariant
            i <= results@.len(),
            result_of(results@, buffer_id, 0) == result_of(results@, buffer_id, i as int),
        decreases results@.len() - i,
    {
        i = i + 1;
    }
    i
}

/// Puts results that have come in one after the other into the order in which the
/// buffers were asked.
pub fn arrange(buffer_ids: &Vec<BufferId>, results: Vec<BuiltExcerpts>) -> (r: Vec<BuiltExcerpts>)
    ensures
        r@ == arranged(buffer_ids@, by_buffer(results@)),
{
    let ghost all = results@;
    let mut rest = results;
    let mut kept: Vec<BuiltExcerpts> = Vec::new();
    let ghost mut done: int = 0;
    assert(all.take(0) =~= seq![]);
    while rest.len() > 0
        invariant
            0 <= done <= all.len(),
            rest@ == all.skip(done),
            kept@ == by_buffer(all.take(done)),
        decreases rest@.len(),
    {
        let result = rest.remove(0);
        proof {
            assert(rest@ =~= all.skip(done + 1));
            assert(all.take(done + 1).drop_last() =~= all.take(done));
            assert(all.take(done + 1).last() == result);
            done = done + 1;
        }
        let i: usize = find_result(&kept, result.buffer.remote_id);
        if i < kept.len() {
            kept.set(i, result);
        } else {
            kept.push(result);
        }
    }
    assert(all.take(done) =~= all);
    let ghost whole = arranged(buffer_ids@, kept@);
    let mut r: Vec<BuiltExcerpts> = Vec::new();
    let mut k: usize = 0;
    assert(buffer_ids@.skip(0) =~= buffer_ids@);
    assert(r@ + whole =~= whole);
    while k < buffer_ids.len()
        invariant
            k <= buffer_ids@.len(),
            r@ + arranged(buffer_ids@.skip(k as int), kept@) == whole,
        decreases buffer_ids@.len() - k,
    {
        let ghost ids = buffer_ids@.skip(k as int);
        let ghost before = r@;
        let i: usize = find_result(&kept, buffer_ids[k]);
        assert(ids.skip(1) =~= buffer_ids@.skip(k + 1));
        if i < kept.len() {
            let result = kept.remove(i);
            r.push(result);
            assert(r@ + arranged(ids.skip(1), kept@) =~= before + (seq![result] + arranged(
                ids.skip(1),
                kept@,
            )));
        }
        k = k + 1;
    }
    assert(r@ =~= whole);
    r
}

/// At most how many excerpts are pushed at once.
pub const PUSH_SIZE: usize = 100;

/// Stretches of one buffer that are pushed at once.
pub struct Push {
    pub buffer: Arc<BufferSnapshot>,
    pub ranges: Seq<ExcerptRange<Point>>,
}

/// The pushes for the stretches of a buffer from `from` on.
pub open spec fn pushes_from(
    buffer: Arc<BufferSnapshot>,
    ranges: Seq<ExcerptRange<Point>>,
    from: int,
) -> Seq<Push>
    decreases ranges.len() - from,
{
    if from >= ranges.len() {
        seq![]
    } else {
        let to = if ranges.len() - from > PUSH_SIZE {
            from + PUSH_SIZE
        } else {
            ranges.len() as int
        };
        seq![Push { buffer, ranges: ranges.subrange(from, to) }] + pushes_from(buffer, ranges, to)
    }
}

/// The pushes for the stretches of several buffers.
pub open spec fn pushes_of(built: Seq<BuiltExcerpts>) -> Seq<Push>
    decreases built.len(),
{
    if built.len() == 0 {
        seq![]
    } else {
        pushes_of(built.drop_last()) + pushes_from(
            built.last().buffer,
            built.last().excerpt_ranges@,
            0,
        )
    }
}

/// Whether `after` is `before` after a push.
pub open spec fn is_pushed(before: MultiBuffer, after: MultiBuffer, push: Push) -> bool {
    after.shows_more(
        &before,
        ExcerptId(usize::MAX),
        push.buffer,
        numbered(before.snapshot.excerpt_ids@, push.ranges),
    )
}

/// Whether a multibuffer goes through states, push by push.
pub open spec fn goes_through(trace: Seq<MultiBuffer>, pushes: Seq<Push>) -> bool {
    &&& trace.len() == pushes.len() + 1
    &&& forall|c: int|
        0 <= c < pushes.len() ==> is_pushed(trace[c], trace[c + 1], #[trigger] pushes[c])
}

/// Whether a multibuffer becomes another, push by push.
pub open spec fn becomes(before: MultiBuffer, after: MultiBuffer, pushes: Seq<Push>) -> bool {
    exists|trace: Seq<MultiBuffer>|
        {
            &&& #[trigger] goes_through(trace, pushes)
            &&& trace[0] == before
            &&& trace.last() == after
        }
}

/// Pushes that follow others.
pub proof fn lemma_becomes_concat(
    before: MultiBuffer,
    middle: MultiBuffer,
    after: MultiBuffer,
    first: Seq<Push>,
    second: Seq<Push>,
)
    requires
        becomes(before, middle, first),
        becomes(middle, after, second),
    ensures
        becomes(before, after, first + second),
{
    let head = choose|trace: Seq<MultiBuffer>|
        {
            &&& #[trigger] goes_through(trace, first)
            &&& trace[0] == before
            &&& trace.last() == middle
        };
    let tail = choose|trace: Seq<MultiBuffer>|
        {
            &&& #[trigger] goes_through(trace, second)
            &&& trace[0] == middle
            &&& trace.last() == after
        };
    let trace = head + tail.skip(1);
    let all = first + second;
    assert forall|c: int| 0 <= c < all.len() implies is_pushed(
        trace[c],
        trace[c + 1],
        #[trigger] all[c],
    ) by {
        if c < first.len() {
            assert(is_pushed(head[c], head[c + 1], first[c]));
        } else {
            let d = c - first.len();
            assert(is_pushed(tail[d], tail[d + 1], second[d]));
            assert(trace[c + 1] == tail[d + 1]);
            assert(trace[c] == tail[d]);
        }
    }
    assert(goes_through(trace, all));
    assert(trace.last() == after);
}

/// One push.
pub proof fn lemma_becomes_one(before: MultiBuffer, after: MultiBuffer, push: Push)
    requires
        is_pushed(before, after, push),
    ensures
        becomes(before, after, seq![push]),
{
    let trace = seq![before, after];
    assert(goes_through(trace, seq![push]));
}

/// No push.
pub proof fn lemma_becomes_none(buffer: MultiBuffer)
    ensures
        becomes(buffer, buffer, seq![]),
{
    assert(goes_through(seq![buffer], seq![]));
}

/// Whether a multibuffer becomes another, push by push, and is well-formed all the way.
pub open spec fn becomes_well(before: MultiBuffer, after: MultiBuffer, pushes: Seq<Push>) -> bool {
    exists|trace: Seq<MultiBuffer>|
        {
            &&& #[trigger] goes_through(trace, pushes)
            &&& trace[0] == before
            &&& trace.last() == after
            &&& all_wf(trace)
        }
}

/// Whether all of some multibuffers are well-formed.
pub open spec fn all_wf(trace: Seq<MultiBuffer>) -> bool {
    forall|c: int| 0 <= c < trace.len() ==> (#[trigger] trace[c]).wf()
}

/// Pushes that follow others, the multibuffer being well-formed all the way.
pub proof fn lemma_becomes_well_concat(
    before: MultiBuffer,
    middle: MultiBuffer,
    after: MultiBuffer,
    first: Seq<Push>,
    second: Seq<Push>,
)
    requires
        becomes_well(before, middle, first),
        becomes_well(middle, after, second),
    ensures
        becomes_well(before, after, first + second),
{
    let head = choose|trace: Seq<MultiBuffer>|
        {
            &&& #[trigger] goes_through(trace, first)
            &&& trace[0] == before
            &&& trace.last() == middle
            &&& all_wf(trace)
        };
    let tail = choose|trace: Seq<MultiBuffer>|
        {
            &&& #[trigger] goes_through(trace, second)
            &&& trace[0] == middle
            &&& trace.last() == after
            &&& all_wf(trace)
        };
    let trace = head + tail.skip(1);
    let all = first + second;
    assert forall|c: int| 0 <= c < trace.len() implies (#[trigger] trace[c]).wf() by {
        if c < head.len() {
            assert(head[c].wf());
        } else {
            assert(tail[c - head.len() + 1].wf());
        }
    }
    assert forall|c: int| 0 <= c < all.len() implies is_pushed(
        trace[c],
        trace[c + 1],
        #[trigger] all[c],
    ) by {
        if c < first.len() {
            assert(is_pushed(head[c], head[c + 1], first[c]));
        } else {
            let d = c - first.len();
            assert(is_pushed(tail[d], tail[d + 1], second[d]));
            assert(trace[c + 1] == tail[d + 1]);
            assert(trace[c] == tail[d]);
        }
    }
    assert(goes_through(trace, all));
    assert(trace.last() == after);
}

/// One push of a well-formed multibuffer.
pub proof fn lemma_becomes_well_one(before: MultiBuffer, after: MultiBuffer, push: Push)
    requires
        before.wf(),
        after.wf(),
        is_pushed(before, after, push),
    ensures
        becomes_well(before, after, seq![push]),
{
    let trace = seq![before, after];
    assert(goes_through(trace, seq![push]));
}

/// No push of a well-formed multibuffer.
pub proof fn lemma_becomes_well_none(buffer: MultiBuffer)
    requires
        buffer.wf(),
    ensures
        becomes_well(buffer, buffer, seq![]),
{
    assert(goes_through(seq![buffer], seq![]));
}

/// How much room stretches take at most.
pub open spec fn room_of(ranges: Seq<ExcerptRange<Point>>, buffer: BufferSnapshot) -> int
    decreases ranges.len(),
{
    if ranges.len() == 0 {
        0
    } else {
        room_of(ranges.drop_last(), buffer) + room_of_one(ranges.last(), buffer)
    }
}

pub open spec fn room_of_one(range: ExcerptRange<Point>, buffer: BufferSnapshot) -> int {
    range.context.end.offset_in(buffer) - range.context.start.offset_in(buffer) + 1
}

/// How much room the stretches of several buffers take at most.
pub open spec fn total_room(built: Seq<BuiltExcerpts>) -> int
    decreases built.len(),
{
    if built.len() == 0 {
        0
    } else {
        total_room(built.drop_last()) + room_of(
            built.last().excerpt_ranges@,
            *built.last().buffer,
        )
    }
}

/// How many stretches several buffers have.
pub open spec fn total_count(built: Seq<BuiltExcerpts>) -> int
    decreases built.len(),
{
    if built.len() == 0 {
        0
    } else {
        total_count(built.drop_last()) + built.last().excerpt_ranges@.len()
    }
}

/// Whether the excerpts of a buffer show these contents of it.
pub open spec fn shows_same(es: Seq<Excerpt>, buffer: Arc<BufferSnapshot>) -> bool {
    forall|i: int|
        0 <= i < es.len() && (#[trigger] es[i]).buffer_id == buffer.remote_id ==> es[i].buffer
            == buffer
}

/// Whether the stretches of a buffer can be shown, and its ranges lie in them.
pub open spec fn built_fits(built: BuiltExcerpts) -> bool {
    &&& built.buffer.wf()
    &&& forall|k: int|
        0 <= k < built.excerpt_ranges@.len() ==> showable(
            #[trigger] built.excerpt_ranges@[k],
            *built.buffer,
        )
    &&& built.range_counts@.len() == built.excerpt_ranges@.len()
    &&& repeated(
        new_ids(seq![], built.excerpt_ranges@.len()),
        built.range_counts@,
    ).len() == built.ranges@.len()
}

/// A range of a buffer, in one of its excerpts.
pub open spec fn range_in(buffer_id: BufferId, id: ExcerptId, range: Range<TextAnchor>) -> Range<
    Anchor,
> {
    Range {
        start: Anchor { buffer_id: Some(buffer_id), excerpt_id: id, text_anchor: range.start },
        end: Anchor { buffer_id: Some(buffer_id), excerpt_id: id, text_anchor: range.end },
    }
}

/// The identifiers from `first` on.
pub open spec fn ids_from(first: int, n: nat) -> Seq<ExcerptId> {
    Seq::new(n, |k: int| ExcerptId((first + k) as usize))
}

/// The ranges of a buffer, in the excerpts that hold them, whose identifiers start
/// with `first`.
pub open spec fn ranges_in(built: BuiltExcerpts, first: int) -> Seq<Range<Anchor>> {
    Seq::new(
        built.ranges@.len(),
        |k: int|
            range_in(
                built.buffer.remote_id,
                repeated(
                    ids_from(first, built.excerpt_ranges@.len()),
                    built.range_counts@,
                )[k],
                built.ranges@[k],
            ),
    )
}

/// The ranges of several buffers, in the excerpts that hold them.
pub open spec fn all_ranges_in(built: Seq<BuiltExcerpts>, first: int) -> Seq<Range<Anchor>>
    decreases built.len(),
{
    if built.len() == 0 {
        seq![]
    } else {
        let front = built.drop_last();
        all_ranges_in(front, first) + ranges_in(built.last(), first + total_count(front))
    }
}

/// The length depends on the counts alone.
proof fn lemma_repeated_len_same(a: Seq<ExcerptId>, b: Seq<ExcerptId>, counts: Seq<usize>)
    requires
        a.len() == b.len(),
    ensures
        repeated(a, counts).len() == repeated(b, counts).len(),
    decreases a.len(),
{
    if a.len() > 0 && counts.len() == a.len() {
        lemma_repeated_len_same(a.drop_last(), b.drop_last(), counts.drop_last());
    }
}

/// Ranges of a buffer, in the excerpts that hold them.
fn place_ranges(
    into: &mut Vec<Range<Anchor>>,
    built: &BuiltExcerpts,
    ids: &Vec<ExcerptId>,
)
    requires
        built.range_counts@.len() == ids@.len(),
        repeated(ids@, built.range_counts@).len() == built.ranges@.len(),
    ensures
        final(into)@ == old(into)@ + Seq::new(
            built.ranges@.len(),
            |k: int|
                range_in(
                    built.buffer.remote_id,
                    repeated(ids@, built.range_counts@)[k],
                    built.ranges@[k],
                ),
        ),
{
    let ghost counts = built.range_counts@;
    let ghost all = repeated(ids@, counts);
    let ghost before = into@;
    let ghost placed = Seq::new(
        built.ranges@.len(),
        |k: int| range_in(built.buffer.remote_id, all[k], built.ranges@[k]),
    );
    let mut k: usize = 0;
    let mut g: usize = 0;
    proof {
        assert(ids@.take(0) =~= Seq::<ExcerptId>::empty());
        assert(before + placed.take(0) =~= before);
    }
    while g < ids.len()
        invariant
            counts == built.range_counts@,
            counts.len() == ids@.len(),
            all == repeated(ids@, counts),
            all.len() == built.ranges@.len(),
            placed.len() == built.ranges@.len(),
            forall|k: int|
                0 <= k < placed.len() ==> #[trigger] placed[k] == range_in(
                    built.buffer.remote_id,
                    all[k],
                    built.ranges@[k],
                ),
            g <= ids@.len(),
            k == repeated(ids@.take(g as int), counts.take(g as int)).len(),
            k <= built.ranges@.len(),
            into@ == before + placed.take(k as int),
        decreases ids@.len() - g,
    {
        let ghost start = k as int;
        let id = ids[g];
        let count: usize = built.range_counts[g];
        proof {
            lemma_repeated_prefix(ids@, counts, g + 1);
            assert(ids@.take(g + 1).drop_last() =~= ids@.take(g as int));
            assert(counts.take(g + 1).drop_last() =~= counts.take(g as int));
            let grown = repeated(ids@.take(g + 1), counts.take(g + 1));
            assert forall|j: int| start <= j < start + count implies #[trigger] all[j] == id by {
                assert(grown[j] == id);
            }
        }
        let mut done: usize = 0;
        while done < count
            invariant
                done <= count,
                0 <= start,
                start + count <= built.ranges@.len(),
                k == start + done,
                all.len() == built.ranges@.len(),
                placed.len() == built.ranges@.len(),
                forall|k: int|
                    0 <= k < placed.len() ==> #[trigger] placed[k] == range_in(
                        built.buffer.remote_id,
                        all[k],
                        built.ranges@[k],
                    ),
                forall|j: int| start <= j < start + count ==> #[trigger] all[j] == id,
                into@ == before + placed.take(k as int),
            decreases count - done,
        {
            let range = &built.ranges[k];
            assert(k < built.ranges.len());
            assert(all[k as int] == id);
            into.push(
                Anchor {
                    buffer_id: Some(built.buffer.remote_id),
                    excerpt_id: id,
                    text_anchor: range.start,
                }..Anchor {
                    buffer_id: Some(built.buffer.remote_id),
                    excerpt_id: id,
                    text_anchor: range.end,
                },
            );
            assert(into@ =~= before + placed.take(k + 1));
            k = k + 1;
            done = done + 1;
        }
        g = g + 1;
    }
    proof {
        assert(ids@.take(ids@.len() as int) =~= ids@);
        assert(counts.take(ids@.len() as int) =~= counts);
        assert(placed.take(placed.len() as int) =~= placed);
        assert(placed =~= Seq::new(
            built.ranges@.len(),
            |k: int|
                range_in(
                    built.buffer.remote_id,
                    repeated(ids@, built.range_counts@)[k],
                    built.ranges@[k],
                ),
        ));
    }
}

/// The room of the first stretches and of those that follow.
proof fn lemma_room_split(
    ranges: Seq<ExcerptRange<Point>>,
    buffer: Arc<BufferSnapshot>,
    from: int,
    to: int,
)
    requires
        0 <= from <= to <= ranges.len(),
        forall|k: int| 0 <= k < ranges.len() ==> showable(#[trigger] ranges[k], *buffer),
    ensures
        room_of(ranges.take(to), *buffer) == room_of(ranges.take(from), *buffer) + room_of(
            ranges.subrange(from, to),
            *buffer,
        ),
        room_of(ranges.take(from), *buffer) <= room_of(ranges.take(to), *buffer),
    decreases to - from,
{
    if from == to {
        assert(ranges.subrange(from, to) =~= seq![]);
    } else {
        lemma_room_split(ranges, buffer, from, to - 1);
        assert(ranges.take(to).drop_last() =~= ranges.take(to - 1));
        assert(ranges.subrange(from, to).drop_last() =~= ranges.subrange(from, to - 1));
        assert(showable(ranges[to - 1], *buffer));
    }
}

/// The room does not depend on the identifiers.
proof fn lemma_room_numbered(
    ids: Seq<ExcerptIdMapping>,
    ranges: Seq<ExcerptRange<Point>>,
    buffer: Arc<BufferSnapshot>,
)
    ensures
        room_for(numbered(ids, ranges), *buffer) == room_of(ranges, *buffer),
    decreases ranges.len(),
{
    if ranges.len() > 0 {
        lemma_room_numbered(ids, ranges.drop_last(), buffer);
        assert(numbered(ids, ranges).drop_last() =~= numbered(ids, ranges.drop_last()));
    }
}

/// What several buffers take is no less than what the first of them take.
proof fn lemma_totals_grow(built: Seq<BuiltExcerpts>, i: int)
    requires
        0 <= i <= built.len(),
        forall|j: int| 0 <= j < built.len() ==> built_fits(#[trigger] built[j]),
    ensures
        total_room(built.take(i)) <= total_room(built),
        total_count(built.take(i)) <= total_count(built),
        pushes_of(built.take(i)).len() <= pushes_of(built).len(),
    decreases built.len() - i,
{
    if i == built.len() {
        assert(built.take(i) =~= built);
    } else {
        lemma_totals_grow(built, i + 1);
        assert(built.take(i + 1).drop_last() =~= built.take(i));
        let b = built[i];
        assert(built_fits(b));
        lemma_room_split(b.excerpt_ranges@, b.buffer, 0, b.excerpt_ranges@.len() as int);
        assert(b.excerpt_ranges@.take(b.excerpt_ranges@.len() as int) =~= b.excerpt_ranges@);
        assert(b.excerpt_ranges@.take(0) =~= seq![]);
    }
}

/// Whether pushes of `count` excerpts make of `before` what `after` is, as far as
/// room is concerned.
pub open spec fn has_grown(
    before: MultiBuffer,
    after: MultiBuffer,
    count: int,
    room: int,
    pushes: int,
) -> bool {
    &&& after.same_but_excerpts(&before)
    &&& after.snapshot.bytes().len() <= before.snapshot.bytes().len() + room
    &&& next_id(after.snapshot.excerpt_ids@) == next_id(before.snapshot.excerpt_ids@) + count
    &&& after.snapshot.trailing_excerpt_update_count
        <= before.snapshot.trailing_excerpt_update_count + pushes
}

/// Whether excerpts that show a buffer's contents still do so, after more contents
/// of buffers have been shown.
pub open spec fn still_shows(
    before: Seq<Excerpt>,
    after: Seq<Excerpt>,
    pushed: Arc<BufferSnapshot>,
) -> bool {
    forall|buffer: Arc<BufferSnapshot>|
        #[trigger] shows_same(before, buffer) && (buffer.remote_id == pushed.remote_id ==> buffer
            == pushed) ==> shows_same(after, buffer)
}

/// A push hands out the next identifiers, and shows the pushed contents.
pub proof fn lemma_pushed(before: MultiBuffer, after: MultiBuffer, push: Push)
    requires
        before.wf(),
        is_pushed(before, after, push),
        next_id(before.snapshot.excerpt_ids@) + push.ranges.len() <= usize::MAX,
    ensures
        after.same_but_excerpts(&before),
        next_id(after.snapshot.excerpt_ids@) == next_id(before.snapshot.excerpt_ids@)
            + push.ranges.len(),
        after.snapshot.trailing_excerpt_update_count
            <= before.snapshot.trailing_excerpt_update_count + 1,
        still_shows(before.snapshot.excerpts@, after.snapshot.excerpts@, push.buffer),
{
    let ids = before.snapshot.excerpt_ids@;
    let ranges = numbered(ids, push.ranges);
    let n = ranges.len() as int;
    if n > 0 {
        let es = before.snapshot.excerpts@;
        let all = after.snapshot.excerpts@;
        let p = before.insertion_index(ExcerptId(usize::MAX));
        lemma_locator_index(es, before.snapshot.locator_for(ExcerptId(usize::MAX)), Bias::Right, 0);
        let news = all.subrange(p, p + n);
        assert(maps(after.snapshot.excerpt_ids@, ids.len() + (n - 1), news[n - 1]));
        assert(is_new_excerpt(
            news[n - 1],
            n - 1,
            ranges,
            push.buffer,
            place_before(es, p),
            place_at(es, p),
            p < es.len(),
        ));
        assert(after.snapshot.excerpt_ids@.last().id == ranges[n - 1].0);
        reveal(spliced);
        assert forall|buffer: Arc<BufferSnapshot>| #[trigger]
            shows_same(es, buffer) && (buffer.remote_id == push.buffer.remote_id ==> buffer
                == push.buffer) implies shows_same(all, buffer) by {
            assert forall|i: int|
                0 <= i < all.len() && (#[trigger] all[i]).buffer_id
                    == buffer.remote_id implies all[i].buffer == buffer by {
                if i < p {
                    assert(all[i].buffer == es[i].buffer && all[i].buffer_id == es[i].buffer_id);
                } else if i < p + n {
                    assert(all[i] == news[i - p]);
                } else {
                    assert(all[i] == es[i - n]);
                }
            }
        }
    }
}

/// The states of buffers hold what the excerpts show.
proof fn lemma_states_show_same(
    es: Seq<Excerpt>,
    states: Seq<BufferState>,
    buffer: Arc<BufferSnapshot>,
)
    requires
        excerpts_wf(es),
        buffers_wf(es, states),
        shows_same(es, buffer),
    ensures
        forall|s: int|
            0 <= s < states.len() && (#[trigger] states[s]).buffer.remote_id == buffer.remote_id
                ==> states[s].buffer == buffer,
{
    reveal(buffers_wf);
    assert forall|s: int|
        0 <= s < states.len() && (#[trigger] states[s]).buffer.remote_id
            == buffer.remote_id implies states[s].buffer == buffer by {
        assert(state_fits(es, states[s]));
        assert(digits_of(states[s].excerpts@).len() > 0);
        let i = lemma_has_locator(es, buffer.remote_id);
        assert(has_state(states, es[i]));
        let t = choose|t: int| state_of(states, t, es[i]);
        assert(states[t].buffer.remote_id == buffer.remote_id);
        assert(t == s);
    }
}

/// A buffer with places has an excerpt.
pub proof fn lemma_has_locator(es: Seq<Excerpt>, buffer_id: BufferId) -> (i: int)
    requires
        locators_of(es, buffer_id).len() > 0,
    ensures
        0 <= i < es.len(),
        es[i].buffer_id == buffer_id,
    decreases es.len(),
{
    if es.last().buffer_id == buffer_id {
        es.len() - 1
    } else {
        lemma_has_locator(es.drop_last(), buffer_id)
    }
}

/// Stretches of a buffer can be pushed where there is room, and where the
/// excerpts show the same contents of the buffer.
pub proof fn lemma_can_push(before: MultiBuffer, push: Push)
    requires
        before.wf(),
        !before.singleton,
        before.history.transaction_depth == 0,
        push.buffer.wf(),
        forall|k: int|
            0 <= k < push.ranges.len() ==> showable(#[trigger] push.ranges[k], *push.buffer),
        shows_same(before.snapshot.excerpts@, push.buffer),
        before.snapshot.bytes().len() + room_of(push.ranges, *push.buffer) <= MAX_TEXT_LEN,
        before.snapshot.trailing_excerpt_update_count < usize::MAX,
    ensures
        before.can_insert(
            ExcerptId(usize::MAX),
            push.buffer,
            numbered(before.snapshot.excerpt_ids@, push.ranges),
        ),
        room_for(numbered(before.snapshot.excerpt_ids@, push.ranges), *push.buffer) == room_of(
            push.ranges,
            *push.buffer,
        ),
{
    lemma_room_numbered(before.snapshot.excerpt_ids@, push.ranges, push.buffer);
    lemma_states_show_same(before.snapshot.excerpts@, before.buffers@, push.buffer);
    let numbers = numbered(before.snapshot.excerpt_ids@, push.ranges);
    assert forall|j: int| 0 <= j < numbers.len() implies showable(
        (#[trigger] numbers[j]).1,
        *push.buffer,
    ) by {
        assert(showable(push.ranges[j], *push.buffer));
    }
}

/// The stretches from `from` to `to`.
fn copy_ranges(ranges: &Vec<ExcerptRange<Point>>, from: usize, to: usize) -> (r: Vec<
    ExcerptRange<Point>,
>)
    requires
        from <= to <= ranges@.len(),
    ensures
        r@ == ranges@.subrange(from as int, to as int),
{
    let mut part: Vec<ExcerptRange<Point>> = Vec::new();
    let mut k: usize = from;
    while k < to
        invariant
            from <= k <= to <= ranges@.len(),
            part@ == ranges@.subrange(from as int, k as int),
        decreases to - k,
    {
        part.push(ranges[k].clone());
        assert(part@ =~= ranges@.subrange(from as int, k + 1));
        k = k + 1;
    }
    part
}

impl MultiBuffer {
    /// Pushes the stretches of one buffer.
    #[verifier::rlimit(50)]
    fn push_built(&mut self, built: &BuiltExcerpts) -> (r: Vec<ExcerptId>)
        requires
            old(self).wf(),
            !old(self).singleton,
            old(self).history.transaction_depth == 0,
            built_fits(*built),
            shows_same(old(self).snapshot.excerpts@, built.buffer),
            old(self).snapshot.bytes().len() + room_of(built.excerpt_ranges@, *built.buffer)
                <= MAX_TEXT_LEN,
            next_id(old(self).snapshot.excerpt_ids@) + built.excerpt_ranges@.len() <= usize::MAX,
            old(self).snapshot.trailing_excerpt_update_count + pushes_from(
                built.buffer,
                built.excerpt_ranges@,
                0,
            ).len() <= usize::MAX,
        ensures
            final(self).wf(),
            becomes(
                *old(self),
                *final(self),
                pushes_from(built.buffer, built.excerpt_ranges@, 0),
            ),
            becomes_well(
                *old(self),
                *final(self),
                pushes_from(built.buffer, built.excerpt_ranges@, 0),
            ),
            has_grown(
                *old(self),
                *final(self),
                built.excerpt_ranges@.len() as int,
                room_of(built.excerpt_ranges@, *built.buffer),
                pushes_from(built.buffer, built.excerpt_ranges@, 0).len() as int,
            ),
            still_shows(
                old(self).snapshot.excerpts@,
                final(self).snapshot.excerpts@,
                built.buffer,
            ),
            r@ == ids_from(
                next_id(old(self).snapshot.excerpt_ids@),
                built.excerpt_ranges@.len(),
            ),
    {
        let ghost before = *self;
        let ghost first = next_id(before.snapshot.excerpt_ids@);
        let ranges = &built.excerpt_ranges;
        let mut ids: Vec<ExcerptId> = Vec::new();
        let mut from: usize = 0;
        let ghost all = pushes_from(built.buffer, ranges@, 0);
        let ghost mut done: Seq<Push> = seq![];
        proof {
            lemma_becomes_none(before);
            lemma_becomes_well_none(before);
            assert(ranges@.take(0) =~= seq![]);
            assert(done + all =~= all);
        }
        while from < ranges.len()
            invariant
                from <= ranges@.len(),
                ranges@ == built.excerpt_ranges@,
                built_fits(*built),
                first == next_id(before.snapshot.excerpt_ids@),
                before.wf(),
                !before.singleton,
                before.history.transaction_depth == 0,
                shows_same(before.snapshot.excerpts@, built.buffer),
                before.snapshot.bytes().len() + room_of(ranges@, *built.buffer) <= MAX_TEXT_LEN,
                first + ranges@.len() <= usize::MAX,
                before.snapshot.trailing_excerpt_update_count + all.len() <= usize::MAX,
                self.wf(),
                done + pushes_from(built.buffer, ranges@, from as int) == all,
                becomes(before, *self, done),
                becomes_well(before, *self, done),
                has_grown(
                    before,
                    *self,
                    from as int,
                    room_of(ranges@.take(from as int), *built.buffer),
                    done.len() as int,
                ),
                still_shows(before.snapshot.excerpts@, self.snapshot.excerpts@, built.buffer),
                ids@ == ids_from(first, from as nat),
            decreases ranges@.len() - from,
        {
            let to: usize = if ranges.len() - from > PUSH_SIZE {
                from + PUSH_SIZE
            } else {
                ranges.len()
            };
            let chunk = copy_ranges(ranges, from, to);
            let ghost was = *self;
            let ghost push = Push { buffer: built.buffer, ranges: chunk@ };
            proof {
                lemma_room_split(ranges@, built.buffer, from as int, to as int);
                lemma_room_split(ranges@, built.buffer, to as int, ranges@.len() as int);
                assert(ranges@.take(ranges@.len() as int) =~= ranges@);
                lemma_can_push(was, push);
            }
            let mut new_ids = self.push_excerpts(share(&built.buffer), &chunk);
            proof {
                lemma_pushed(was, *self, push);
                lemma_becomes_one(was, *self, push);
                lemma_becomes_concat(before, was, *self, done, seq![push]);
                lemma_becomes_well_one(was, *self, push);
                lemma_becomes_well_concat(before, was, *self, done, seq![push]);
                done = done + seq![push];
                assert(done + pushes_from(built.buffer, ranges@, to as int) =~= all);
            }
            ids.append(&mut new_ids);
            assert(ids@ =~= ids_from(first, to as nat));
            from = to;
        }
        proof {
            assert(ranges@.take(ranges@.len() as int) =~= ranges@);
            assert(done =~= all);
        }
        ids
    }

    /// Shows, behind all excerpts, the stretches of several buffers that have been
    /// chosen so that some of their ranges can be seen. Returns where the ranges
    /// are in the new excerpts.
    pub fn push_multiple_excerpts_with_context_lines(
        &mut self,
        built: &Vec<BuiltExcerpts>,
    ) -> (r: Vec<Range<Anchor>>)
        requires
            old(self).wf(),
            !old(self).singleton,
            old(self).history.transaction_depth == 0,
            forall|i: int| 0 <= i < built@.len() ==> built_fits(#[trigger] built@[i]),
            forall|i: int|
                0 <= i < built@.len() ==> shows_same(
                    old(self).snapshot.excerpts@,
                    (#[trigger] built@[i]).buffer,
                ),
            forall|i: int, j: int|
                0 <= i < j < built@.len() && (#[trigger] built@[i]).buffer.remote_id == (
                #[trigger] built@[j]).buffer.remote_id ==> built@[i].buffer == built@[j].buffer,
            old(self).snapshot.bytes().len() + total_room(built@) <= MAX_TEXT_LEN,
            next_id(old(self).snapshot.excerpt_ids@) + total_count(built@) <= usize::MAX,
            old(self).snapshot.trailing_excerpt_update_count + pushes_of(built@).len()
                <= usize::MAX,
        ensures
            final(self).wf(),
            becomes(*old(self), *final(self), pushes_of(built@)),
            becomes_well(*old(self), *final(self), pushes_of(built@)),
            r@ == all_ranges_in(built@, next_id(old(self).snapshot.excerpt_ids@)),
    {
        let ghost before = *self;
        let ghost first = next_id(before.snapshot.excerpt_ids@);
        let mut ranges: Vec<Range<Anchor>> = Vec::new();
        let mut i: usize = 0;
        proof {
            lemma_becomes_none(before);
            lemma_becomes_well_none(before);
            assert(built@.take(0) =~= seq![]);
        }
        while i < built.len()
            invariant
                i <= built@.len(),
                first == next_id(before.snapshot.excerpt_ids@),
                !before.singleton,
                before.history.transaction_depth == 0,
                forall|i: int| 0 <= i < built@.len() ==> built_fits(#[trigger] built@[i]),
                forall|i: int, j: int|
                    0 <= i < j < built@.len() && (#[trigger] built@[i]).buffer.remote_id == (
                    #[trigger] built@[j]).buffer.remote_id ==> built@[i].buffer
                        == built@[j].buffer,
                before.snapshot.bytes().len() + total_room(built@) <= MAX_TEXT_LEN,
                first + total_count(built@) <= usize::MAX,
                before.snapshot.trailing_excerpt_update_count + pushes_of(built@).len()
                    <= usize::MAX,
                self.wf(),
                forall|j: int|
                    0 <= j < built@.len() ==> shows_same(
                        self.snapshot.excerpts@,
                        (#[trigger] built@[j]).buffer,
                    ),
                becomes(before, *self, pushes_of(built@.take(i as int))),
                becomes_well(before, *self, pushes_of(built@.take(i as int))),
                has_grown(
                    before,
                    *self,
                    total_count(built@.take(i as int)),
                    total_room(built@.take(i as int)),
                    pushes_of(built@.take(i as int)).len() as int,
                ),
                ranges@ == all_ranges_in(built@.take(i as int), first),
            decreases built@.len() - i,
        {
            let item = &built[i];
            let ghost was = *self;
            proof {
                lemma_totals_grow(built@, i + 1);
                assert(built@.take(i + 1).drop_last() =~= built@.take(i as int));
                assert(built@.take(i + 1).last() == *item);
                assert(built_fits(built@[i as int]));
            }
            let ids = self.push_built(item);
            proof {
                lemma_becomes_concat(
                    before,
                    was,
                    *self,
                    pushes_of(built@.take(i as int)),
                    pushes_from(item.buffer, item.excerpt_ranges@, 0),
                );
                lemma_becomes_well_concat(
                    before,
                    was,
                    *self,
                    pushes_of(built@.take(i as int)),
                    pushes_from(item.buffer, item.excerpt_ranges@, 0),
                );
                lemma_repeated_len_same(
                    new_ids(seq![], item.excerpt_ranges@.len()),
                    ids@,
                    item.range_counts@,
                );
                assert forall|j: int| 0 <= j < built@.len() implies shows_same(
                    self.snapshot.excerpts@,
                    (#[trigger] built@[j]).buffer,
                ) by {
                    assert(shows_same(was.snapshot.excerpts@, built@[j].buffer));
                    if j < i {
                        assert(built@[j].buffer.remote_id == built@[i as int].buffer.remote_id
                            ==> built@[j].buffer == built@[i as int].buffer);
                    }
                }
            }
            place_ranges(&mut ranges, item, &ids);
            assert(ranges@ =~= all_ranges_in(built@.take(i + 1), first));
            i = i + 1;
        }
        assert(built@.take(built@.len() as int) =~= built@);
        ranges
    }
}

} // verus!
