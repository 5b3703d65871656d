//! Multibuffers for trying things out.

use std::ops::Range;
use std::sync::Arc;
use vstd::prelude::*;
use vstd::utf8::encode_utf8;

use crate::buffer::{BufferId, BufferSnapshot, Capability};
use crate::excerpt::ExcerptRange;
use crate::multi_buffer::insert::{next_id, showable};
use crate::multi_buffer::push_many::{
    becomes, lemma_becomes_concat, lemma_becomes_none, lemma_becomes_one, lemma_can_push,
    lemma_pushed, room_of, shows_same, Push,
};
use crate::multi_buffer::state::whole_buffer;
use crate::multi_buffer::MultiBuffer;
use crate::shared::share;
use crate::text::{Point, MAX_TEXT_LEN};

verus! {

/// Ranges to show, without a part that matters most.
pub open spec fn plain_ranges(ranges: Seq<Range<Point>>) -> Seq<ExcerptRange<Point>> {
    ranges.map_values(|range: Range<Point>| ExcerptRange { context: range, primary: None })
}

/// The pushes that show ranges of buffers, one for each buffer.
pub open spec fn plain_pushes(
    excerpts: Seq<(Arc<BufferSnapshot>, Vec<Range<Point>>)>,
) -> Seq<Push> {
    excerpts.map_values(
        |item: (Arc<BufferSnapshot>, Vec<Range<Point>>)|
            Push { buffer: item.0, ranges: plain_ranges(item.1@) },
    )
}

/// How much room pushes take at most.
pub open spec fn pushes_room(pushes: Seq<Push>) -> int
    decreases pushes.len(),
{
    if pushes.len() == 0 {
        0
    } else {
        pushes_room(pushes.drop_last()) + room_of(pushes.last().ranges, *pushes.last().buffer)
    }
}

/// How many excerpts pushes show.
pub open spec fn pushes_count(pushes: Seq<Push>) -> int
    decreases pushes.len(),
{
    if pushes.len() == 0 {
        0
    } else {
        pushes_count(pushes.drop_last()) + pushes.last().ranges.len()
    }
}

/// Whether all stretches of a push can be shown.
pub open spec fn can_show(push: Push) -> bool {
    &&& push.buffer.wf()
    &&& forall|k: int|
        0 <= k < push.ranges.len() ==> showable(#[trigger] push.ranges[k], *push.buffer)
}

proof fn lemma_room_positive(ranges: Seq<ExcerptRange<Point>>, buffer: Arc<BufferSnapshot>)
    requires
        forall|k: int| 0 <= k < ranges.len() ==> showable(#[trigger] ranges[k], *buffer),
    ensures
        room_of(ranges, *buffer) >= 0,
    decreases ranges.len(),
{
    if ranges.len() > 0 {
        assert(showable(ranges.last(), *buffer));
        lemma_room_positive(ranges.drop_last(), buffer);
    }
}

/// Pushes take no less than the first of them.
proof fn lemma_pushes_grow(pushes: Seq<Push>, i: int)
    requires
        0 <= i <= pushes.len(),
        forall|j: int| 0 <= j < pushes.len() ==> can_show(#[trigger] pushes[j]),
    ensures
        pushes_room(pushes.take(i)) <= pushes_room(pushes),
        pushes_count(pushes.take(i)) <= pushes_count(pushes),
    decreases pushes.len() - i,
{
    if i == pushes.len() {
        assert(pushes.take(i) =~= pushes);
    } else {
        lemma_pushes_grow(pushes, i + 1);
        assert(pushes.take(i + 1).drop_last() =~= pushes.take(i));
        assert(can_show(pushes[i]));
        lemma_room_positive(pushes[i].ranges, pushes[i].buffer);
    }
}

fn plain_excerpt_ranges(ranges: &Vec<Range<Point>>) -> (r: Vec<ExcerptRange<Point>>)
    ensures
        r@ == plain_ranges(ranges@),
{
    let mut r: Vec<ExcerptRange<Point>> = Vec::new();
    let mut k: usize = 0;
    while k < ranges.len()
        invariant
            k <= ranges@.len(),
            r@ == plain_ranges(ranges@).take(k as int),
        decreases ranges@.len() - k,
    {
        r.push(ExcerptRange { context: ranges[k].start..ranges[k].end, primary: None });
        assert(r@ =~= plain_ranges(ranges@).take(k + 1));
        k = k + 1;
    }
    assert(r@ =~= plain_ranges(ranges@));
    r
}

impl MultiBuffer {
    /// A multibuffer that shows all of a text.
    pub fn build_simple(remote_id: BufferId, text: String) -> (r: Self)
        requires
            encode_utf8(text@).len() < MAX_TEXT_LEN,
        ensures
            r.wf(),
            r.singleton,
            r.snapshot.bytes() == encode_utf8(text@),
            r.snapshot.excerpts@.len() == 1,
            r.snapshot.excerpts@[0].buffer_id == remote_id,
            r.snapshot.excerpts@[0].range == whole_buffer(),
            r.shows_only(r.snapshot.excerpts@[0].buffer),
            r.capability is ReadWrite,
    {
        let buffer = BufferSnapshot::new(remote_id, text);
        proof {
            reveal(BufferSnapshot::bytes);
        }
        MultiBuffer::singleton(Arc::new(buffer))
    }

    /// A multibuffer that shows all of a buffer.
    pub fn build_from_buffer(buffer: Arc<BufferSnapshot>) -> (r: Self)
        requires
            buffer.wf(),
            buffer.bytes().len() < MAX_TEXT_LEN,
        ensures
            r.wf(),
            r.singleton,
            r.snapshot.bytes() == buffer.bytes(),
            r.shows_only(buffer),
    {
        MultiBuffer::singleton(buffer)
    }

    /// A multibuffer that shows ranges of buffers, one buffer after the other.
    pub fn build_multi(excerpts: &Vec<(Arc<BufferSnapshot>, Vec<Range<Point>>)>) -> (r: Self)
        requires
            forall|i: int|
                0 <= i < plain_pushes(excerpts@).len() ==> can_show(
                    #[trigger] plain_pushes(excerpts@)[i],
                ),
            forall|i: int, j: int|
                0 <= i < j < excerpts@.len() && (#[trigger] excerpts@[i]).0.remote_id == (
                #[trigger] excerpts@[j]).0.remote_id ==> excerpts@[i].0 == excerpts@[j].0,
            pushes_room(plain_pushes(excerpts@)) <= MAX_TEXT_LEN,
            pushes_count(plain_pushes(excerpts@)) < usize::MAX,
        ensures
            r.wf(),
            exists|empty: MultiBuffer| #[trigger]
                empty.is_new(Capability::ReadWrite, true) && becomes(
                    empty,
                    r,
                    plain_pushes(excerpts@),
                ),
    {
        let mut multi = MultiBuffer::new(Capability::ReadWrite);
        let ghost empty = multi;
        let ghost pushes = plain_pushes(excerpts@);
        let mut i: usize = 0;
        proof {
            lemma_becomes_none(empty);
            assert(pushes.take(0) =~= seq![]);
            assert(empty.snapshot.bytes() =~= seq![]);
        }
        while i < excerpts.len()
            invariant
                i <= excerpts@.len(),
                pushes == plain_pushes(excerpts@),
                forall|i: int| 0 <= i < pushes.len() ==> can_show(#[trigger] pushes[i]),
                forall|i: int, j: int|
                    0 <= i < j < excerpts@.len() && (#[trigger] excerpts@[i]).0.remote_id == (
                    #[trigger] excerpts@[j]).0.remote_id ==> excerpts@[i].0 == excerpts@[j].0,
                pushes_room(pushes) <= MAX_TEXT_LEN,
                pushes_count(pushes) < usize::MAX,
                empty.is_new(Capability::ReadWrite, true),
                multi.wf(),
                multi.same_but_excerpts(&empty),
                multi.snapshot.bytes().len() <= pushes_room(pushes.take(i as int)),
                next_id(multi.snapshot.excerpt_ids@) == 1 + pushes_count(pushes.take(i as int)),
                multi.snapshot.trailing_excerpt_update_count <= i,
                forall|j: int|
                    0 <= j < pushes.len() ==> shows_same(
                        multi.snapshot.excerpts@,
                        (#[trigger] pushes[j]).buffer,
                    ),
                becomes(empty, multi, pushes.take(i as int)),
            decreases excerpts@.len() - i,
        {
            let (buffer, ranges) = &excerpts[i];
            let excerpt_ranges = plain_excerpt_ranges(ranges);
            let ghost was = multi;
            let ghost push = pushes[i as int];
            assert(i < excerpts.len());
            proof {
                lemma_pushes_grow(pushes, i + 1);
                assert(pushes.take(i + 1).drop_last() =~= pushes.take(i as int));
                assert(can_show(push));
                assert(push == (Push { buffer: *buffer, ranges: excerpt_ranges@ }));
                lemma_can_push(was, push);
            }
            multi.push_excerpts(share(buffer), &excerpt_ranges);
            proof {
                lemma_pushed(was, multi, push);
                lemma_becomes_one(was, multi, push);
                lemma_becomes_concat(empty, was, multi, pushes.take(i as int), seq![push]);
                assert(pushes.take(i as int) + seq![push] =~= pushes.take(i + 1));
                assert forall|j: int| 0 <= j < pushes.len() implies shows_same(
                    multi.snapshot.excerpts@,
                    (#[trigger] pushes[j]).buffer,
                ) by {
                    assert(shows_same(was.snapshot.excerpts@, pushes[j].buffer));
                    assert(pushes[j].buffer == excerpts@[j].0);
                    assert(push.buffer == excerpts@[i as int].0);
                }
            }
            i = i + 1;
        }
        assert(pushes.take(pushes.len() as int) =~= pushes);
        multi
    }
}

} // verus!
