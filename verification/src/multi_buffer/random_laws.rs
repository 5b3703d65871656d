//! What holds of changes that are drawn, whatever comes.

use std::ops::Range;
use std::sync::Arc;
use vstd::prelude::*;

use crate::buffer::{lemma_boundary_left, lemma_boundary_right, BufferSnapshot};
use crate::excerpt::ExcerptId;
use crate::multi_buffer::random::{chosen_of, kind_for, range_between};
use crate::multi_buffer::samples::plain_pushes;
use crate::snapshot::round_trips::lemma_clip_offset;
use crate::text::{is_boundary, Point};

verus! {

/// Chosen identifiers are put in the order in which the excerpts stand, all of them and no
/// others.
pub proof fn lemma_chosen(ids: Seq<ExcerptId>, chosen: Seq<ExcerptId>)
    ensures
        chosen_of(ids, chosen) == ids.filter(|id: ExcerptId| chosen.contains(id)),
    decreases ids.len(),
{
    reveal(Seq::filter);
    if ids.len() > 0 {
        lemma_chosen(ids.drop_last(), chosen);
    } else {
        assert(chosen_of(ids, chosen) =~= ids.filter(|id: ExcerptId| chosen.contains(id)));
    }
}

/// Where there is no excerpt, none grows and none is removed; where there are as many as
/// there may be, none is added. What was drawn is done where it can be.
pub proof fn lemma_kind(
    count: int,
    max_excerpts: int,
    clears: bool,
    expands: bool,
    inserts: bool,
)
    requires
        0 <= count,
    ensures
        ({
            let kind = kind_for(count, max_excerpts, clears, expands, inserts);
            &&& kind is Clear <==> clears
            &&& count == 0 ==> kind is Clear || kind is Insert
            &&& count > 0 && count >= max_excerpts ==> !(kind is Insert)
            &&& kind is Expand <==> !clears && expands && count > 0
            &&& count > 0 && count < max_excerpts && !clears && !expands ==> (kind is Insert
                <==> inserts)
        }),
{
}

/// A range between offsets that were drawn starts and ends where characters start, no later
/// than the first and no earlier than the second, with no other such place between.
pub proof fn lemma_range_between(t: Seq<u8>, drawn: Range<usize>, k: int)
    requires
        drawn.start <= drawn.end <= t.len() <= usize::MAX,
    ensures
        ({
            let r = range_between(t, drawn).context;
            &&& r.start <= drawn.start
            &&& drawn.end <= r.end
            &&& is_boundary(t, r.start as int)
            &&& is_boundary(t, r.end as int)
            &&& r.start < k < drawn.start || drawn.end < k < r.end ==> !is_boundary(t, k)
            &&& range_between(t, drawn).primary is None
        }),
{
    lemma_clip_offset(t, drawn.start as int);
    lemma_clip_offset(t, drawn.end as int);
    lemma_boundary_left(t, drawn.start as int);
    lemma_boundary_right(t, drawn.end as int);
}

/// A sample pushes the ranges of each buffer as they are, one buffer after the other.
pub proof fn lemma_plain_pushes(
    excerpts: Seq<(Arc<BufferSnapshot>, Vec<Range<Point>>)>,
    i: int,
    k: int,
)
    requires
        0 <= i < excerpts.len(),
        0 <= k < excerpts[i].1@.len(),
    ensures
        ({
            let pushes = plain_pushes(excerpts);
            &&& pushes.len() == excerpts.len()
            &&& pushes[i].buffer == excerpts[i].0
            &&& pushes[i].ranges.len() == excerpts[i].1@.len()
            &&& pushes[i].ranges[k].context == excerpts[i].1@[k]
            &&& pushes[i].ranges[k].primary is None
        }),
{
}

} // verus!
