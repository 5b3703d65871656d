//! Choosing which stretches of a buffer to show around given ranges.

use std::ops::Range;
use vstd::prelude::*;

use crate::buffer::{row_end, row_start, BufferSnapshot, ToBufferPoint};
use crate::excerpt::ExcerptRange;
use crate::multi_buffer::insert::showable;
use crate::snapshot::convert::to_point;
use crate::text::{
    find, is_boundary, lemma_find, lemma_find_point, lemma_positions_grow, lemma_summary_sound,
    point_at, Point, Pos,
};

verus! {

/// Ranges that are shown together: which they are, and the last row that is
/// shown.
pub struct Group {
    pub first: int,
    pub next: int,
    pub last_row: int,
}

/// The row that lies `context` rows behind `row`, as far as there are rows.
pub open spec fn row_below(row: int, context: int, max_row: int) -> int {
    if row + context <= max_row {
        row + context
    } else {
        max_row
    }
}

/// The group that starts with the ranges before `next` and reaches to
/// `last_row`: it takes in the ranges that start within the context of its end.
pub open spec fn grown_group(
    ranges: Seq<(Pos, Pos)>,
    first: int,
    next: int,
    last_row: int,
    context: int,
    max_row: int,
) -> Group
    decreases ranges.len() - next,
{
    if next < ranges.len() && ranges[next].0.row <= last_row + context {
        grown_group(
            ranges,
            first,
            next + 1,
            row_below(ranges[next].1.row, context, max_row),
            context,
            max_row,
        )
    } else {
        Group { first, next, last_row }
    }
}

/// The group that starts with the range `first`.
pub open spec fn group_at(
    ranges: Seq<(Pos, Pos)>,
    first: int,
    context: int,
    max_row: int,
) -> Group {
    grown_group(
        ranges,
        first,
        first + 1,
        row_below(ranges[first].1.row, context, max_row),
        context,
        max_row,
    )
}

pub proof fn lemma_grown_group(
    ranges: Seq<(Pos, Pos)>,
    first: int,
    next: int,
    last_row: int,
    context: int,
    max_row: int,
)
    requires
        0 <= next <= ranges.len(),
    ensures
        next <= grown_group(ranges, first, next, last_row, context, max_row).next
            <= ranges.len(),
        grown_group(ranges, first, next, last_row, context, max_row).first == first,
    decreases ranges.len() - next,
{
    if next < ranges.len() && ranges[next].0.row <= last_row + context {
        lemma_grown_group(
            ranges,
            first,
            next + 1,
            row_below(ranges[next].1.row, context, max_row),
            context,
            max_row,
        );
    }
}

/// The groups of the ranges from `first` on.
pub open spec fn groups_from(
    ranges: Seq<(Pos, Pos)>,
    first: int,
    context: int,
    max_row: int,
) -> Seq<Group>
    decreases ranges.len() - first,
{
    if first < 0 || first >= ranges.len() {
        seq![]
    } else {
        let group = group_at(ranges, first, context, max_row);
        if group.next <= first || group.next > ranges.len() {
            seq![group]
        } else {
            seq![group] + groups_from(ranges, group.next, context, max_row)
        }
    }
}

/// Rows and columns of ranges of a buffer.
pub open spec fn points_of<T: ToBufferPoint>(
    ranges: Seq<Range<T>>,
    buffer: BufferSnapshot,
) -> Seq<(Pos, Pos)> {
    ranges.map_values(|r: Range<T>| (r.start.point_in(buffer), r.end.point_in(buffer)))
}

/// The stretch that shows a group: from `context` rows before its first range to
/// the end of its last row.
pub open spec fn stretch_for(
    ranges: Seq<(Pos, Pos)>,
    group: Group,
    context: int,
    t: Seq<u8>,
) -> ExcerptRange<Point> {
    let first = ranges[group.first];
    let last_row = group.last_row as u32;
    ExcerptRange {
        context: Range {
            start: Point {
                row: if first.0.row >= context {
                    (first.0.row - context) as u32
                } else {
                    0
                },
                column: 0,
            },
            end: Point {
                row: last_row,
                column: (row_end(t, last_row) - row_start(t, last_row)) as u32,
            },
        },
        primary: Some(Range { start: to_point(first.0), end: to_point(first.1) }),
    }
}

/// The groups of ranges of a buffer.
pub open spec fn groups_of<T: ToBufferPoint>(
    ranges: Seq<Range<T>>,
    buffer: BufferSnapshot,
    context: int,
) -> Seq<Group> {
    groups_from(
        points_of(ranges, buffer),
        0,
        context,
        point_at(buffer.bytes(), buffer.bytes().len() as int).row,
    )
}

/// The stretches that show ranges of a buffer.
pub open spec fn stretches_for<T: ToBufferPoint>(
    ranges: Seq<Range<T>>,
    buffer: BufferSnapshot,
    context: int,
) -> Seq<ExcerptRange<Point>> {
    groups_of(ranges, buffer, context).map_values(
        |group: Group|
            stretch_for(points_of(ranges, buffer), group, context, buffer.bytes()),
    )
}

/// Chooses which stretches of a buffer to show so that all ranges can be seen
/// with `context_line_count` rows around them, and counts the ranges in each.
/// Ranges that come close to one another are shown together.
pub fn build_excerpt_ranges<T: ToBufferPoint>(
    buffer: &BufferSnapshot,
    ranges: &Vec<Range<T>>,
    context_line_count: u32,
) -> (r: (Vec<ExcerptRange<Point>>, Vec<usize>))
    requires
        buffer.wf(),
        forall|k: int|
            0 <= k < ranges@.len() ==> (#[trigger] ranges@[k]).end.point_in(*buffer).row
                + context_line_count <= u32::MAX,
        point_at(buffer.bytes(), buffer.bytes().len() as int).row + context_line_count
            <= u32::MAX,
    ensures
        r.0@ == stretches_for(ranges@, *buffer, context_line_count as int),
        r.1@.len() == r.0@.len(),
        forall|g: int|
            0 <= g < r.1@.len() ==> #[trigger] r.1@[g] == groups_of(
                ranges@,
                *buffer,
                context_line_count as int,
            )[g].next - groups_of(ranges@, *buffer, context_line_count as int)[g].first,
{
    let ghost points = points_of(ranges@, *buffer);
    let ghost context = context_line_count as int;
    let max_point = buffer.max_point();
    let ghost max_row = max_point@.row;
    let mut range_counts: Vec<usize> = Vec::new();
    let mut excerpt_ranges: Vec<ExcerptRange<Point>> = Vec::new();
    let mut first: usize = 0;
    let ghost mut done: Seq<Group> = seq![];
    assert(done + groups_from(points, 0, context, max_row) =~= groups_from(
        points,
        0,
        context,
        max_row,
    ));
    while first < ranges.len()
        invariant
            buffer.wf(),
            points == points_of(ranges@, *buffer),
            points.len() == ranges@.len(),
            context == context_line_count,
            max_row == max_point@.row,
            max_row + context <= u32::MAX,
            forall|k: int|
                0 <= k < ranges@.len() ==> (#[trigger] ranges@[k]).end.point_in(*buffer).row
                    + context_line_count <= u32::MAX,
            first <= ranges@.len(),
            excerpt_ranges@.len() == done.len(),
            range_counts@.len() == done.len(),
            done + groups_from(points, first as int, context, max_row) == groups_from(
                points,
                0,
                context,
                max_row,
            ),
            forall|g: int|
                0 <= g < done.len() ==> #[trigger] excerpt_ranges@[g] == stretch_for(
                    points,
                    done[g],
                    context,
                    buffer.bytes(),
                ),
            forall|g: int|
                0 <= g < done.len() ==> #[trigger] range_counts@[g] == done[g].next
                    - done[g].first,
        decreases ranges@.len() - first,
    {
        let range = &ranges[first];
        let start = range.start.to_buffer_point(buffer);
        let end = range.end.to_buffer_point(buffer);
        let ghost group = group_at(points, first as int, context, max_row);
        proof {
            assert(points[first as int] == (start@, end@));
            lemma_grown_group(
                points,
                first as int,
                first + 1,
                row_below(end@.row, context, max_row),
                context,
                max_row,
            );
        }
        assert(ranges@[first as int].end.point_in(*buffer).row + context_line_count <= u32::MAX);
        let mut row: u32 = if end.row + context_line_count <= max_point.row {
            end.row + context_line_count
        } else {
            max_point.row
        };
        let mut next: usize = first + 1;
        while next < ranges.len() && ranges[next].start.to_buffer_point(buffer).row <= row
            + context_line_count
            invariant
                buffer.wf(),
                points == points_of(ranges@, *buffer),
                points.len() == ranges@.len(),
                context == context_line_count,
                max_row == max_point@.row,
                max_row + context <= u32::MAX,
                row <= max_row,
                forall|k: int|
                    0 <= k < ranges@.len() ==> (#[trigger] ranges@[k]).end.point_in(*buffer).row
                        + context_line_count <= u32::MAX,
                first < next <= ranges@.len(),
                group == grown_group(
                    points,
                    first as int,
                    next as int,
                    row as int,
                    context,
                    max_row,
                ),
            decreases ranges@.len() - next,
        {
            let next_end = ranges[next].end.to_buffer_point(buffer);
            assert(points[next as int].0 == ranges@[next as int].start.point_in(*buffer));
            assert(points[next as int].1 == next_end@);
            assert(ranges@[next as int].end.point_in(*buffer).row + context_line_count
                <= u32::MAX);
            row = if next_end.row + context_line_count <= max_point.row {
                next_end.row + context_line_count
            } else {
                max_point.row
            };
            next = next + 1;
        }
        proof {
            if next < ranges@.len() {
                assert(points[next as int].0 == ranges@[next as int].start.point_in(*buffer));
            }
        }
        assert(group == (Group {
            first: first as int,
            next: next as int,
            last_row: row as int,
        }));
        let excerpt_end = Point { row, column: buffer.line_len(row) };
        let excerpt_start = Point { row: start.row.saturating_sub(context_line_count), column: 0 };
        let ghost shown_before = excerpt_ranges@;
        let ghost counts_before = range_counts@;
        excerpt_ranges.push(
            ExcerptRange { context: excerpt_start..excerpt_end, primary: Some(start..end) },
        );
        range_counts.push(next - first);
        proof {
            let rest = groups_from(points, next as int, context, max_row);
            assert(done + groups_from(points, first as int, context, max_row) =~= done.push(
                group,
            ) + rest);
            let grown = done.push(group);
            assert forall|g: int| 0 <= g < grown.len() implies #[trigger] excerpt_ranges@[g]
                == stretch_for(points, grown[g], context, buffer.bytes()) by {
                if g < done.len() {
                    assert(excerpt_ranges@[g] == shown_before[g]);
                }
            }
            assert forall|g: int| 0 <= g < grown.len() implies #[trigger] range_counts@[g]
                == grown[g].next - grown[g].first by {
                if g < done.len() {
                    assert(range_counts@[g] == counts_before[g]);
                }
            }
            done = grown;
        }
        first = next;
    }
    proof {
        assert(done + groups_from(points, first as int, context, max_row) =~= done);
        assert(excerpt_ranges@ =~= stretches_for(ranges@, *buffer, context));
    }
    (excerpt_ranges, range_counts)
}

/// The groups hold all ranges from `first` on, one after the other.
pub proof fn lemma_groups(ranges: Seq<(Pos, Pos)>, first: int, context: int, max_row: int)
    requires
        0 <= first <= ranges.len(),
    ensures
        ({
            let groups = groups_from(ranges, first, context, max_row);
            &&& first < ranges.len() ==> groups.len() > 0 && groups[0].first == first
                && groups.last().next == ranges.len()
            &&& first == ranges.len() ==> groups.len() == 0
            &&& forall|g: int|
                0 <= g < groups.len() ==> first <= (#[trigger] groups[g]).first < groups[g].next
                    <= ranges.len()
            &&& forall|g: int|
                0 < g < groups.len() ==> (#[trigger] groups[g]).first == groups[g - 1].next
            &&& forall|g: int|
                0 <= g < groups.len() ==> #[trigger] groups[g] == group_at(
                    ranges,
                    groups[g].first,
                    context,
                    max_row,
                )
        }),
    decreases ranges.len() - first,
{
    if first < ranges.len() {
        let group = group_at(ranges, first, context, max_row);
        lemma_grown_group(
            ranges,
            first,
            first + 1,
            row_below(ranges[first].1.row, context, max_row),
            context,
            max_row,
        );
        lemma_groups(ranges, group.next, context, max_row);
        let rest = groups_from(ranges, group.next, context, max_row);
        let groups = groups_from(ranges, first, context, max_row);
        assert(groups == seq![group] + rest);
        assert forall|g: int| 0 < g < groups.len() implies #[trigger] groups[g]
            == rest[g - 1] by {}
    }
}

/// Whether no range ends in a row before that in which it or an earlier one
/// starts.
pub open spec fn rows_ascend(ranges: Seq<(Pos, Pos)>) -> bool {
    forall|i: int, j: int|
        0 <= i <= j < ranges.len() ==> (#[trigger] ranges[i]).0.row <= (
        #[trigger] ranges[j]).1.row
}

/// A group reaches `context` rows behind its last range.
proof fn lemma_group_last_row(
    ranges: Seq<(Pos, Pos)>,
    first: int,
    next: int,
    context: int,
    max_row: int,
)
    requires
        0 <= first < next <= ranges.len(),
    ensures
        ({
            let group = grown_group(
                ranges,
                first,
                next,
                row_below(ranges[next - 1].1.row, context, max_row),
                context,
                max_row,
            );
            &&& first < group.next <= ranges.len()
            &&& group.last_row == row_below(ranges[group.next - 1].1.row, context, max_row)
        }),
    decreases ranges.len() - next,
{
    let last_row = row_below(ranges[next - 1].1.row, context, max_row);
    if next < ranges.len() && ranges[next].0.row <= last_row + context {
        lemma_group_last_row(ranges, first, next + 1, context, max_row);
    }
}

/// Rows start no later than the last of them ends.
proof fn lemma_rows_showable(buffer: BufferSnapshot, first_row: u32, last_row: u32)
    requires
        buffer.wf(),
        last_row <= point_at(buffer.bytes(), buffer.bytes().len() as int).row,
        first_row <= last_row || last_row == point_at(
            buffer.bytes(),
            buffer.bytes().len() as int,
        ).row,
    ensures
        ({
            let t = buffer.bytes();
            let start = Point { row: first_row, column: 0 };
            let end = Point {
                row: last_row,
                column: (row_end(t, last_row) - row_start(t, last_row)) as u32,
            };
            &&& 0 <= find(t, start, 0) <= find(t, end, 0) <= t.len()
            &&& is_boundary(t, find(t, start, 0))
            &&& is_boundary(t, find(t, end, 0))
        }),
{
    let t = buffer.bytes();
    let max_row = point_at(t, t.len() as int).row;
    let first = Point { row: first_row, column: 0 };
    let last = Point {
        row: last_row,
        column: (row_end(t, last_row) - row_start(t, last_row)) as u32,
    };
    let start = find(t, first, 0);
    let end = row_end(t, last_row);
    buffer.lemma_row(last_row);
    lemma_find(t, first, 0);
    lemma_find_point(t, last, end);
    if start > end {
        lemma_positions_grow(t, end, start);
        if first_row <= max_row {
            buffer.lemma_row(first_row);
        } else {
            buffer.lemma_row_end_behind(last_row, start);
            if start < t.len() {
                lemma_positions_grow(t, start, t.len() as int);
            }
        }
    }
}

/// The stretches that show ranges can be shown, as long as no range ends in a row
/// before that in which it or an earlier one starts.
#[verifier::rlimit(50)]
pub proof fn lemma_stretches_showable<T: ToBufferPoint>(
    ranges: Seq<Range<T>>,
    buffer: BufferSnapshot,
    context: int,
)
    requires
        buffer.wf(),
        0 <= context <= u32::MAX,
        rows_ascend(points_of(ranges, buffer)),
        forall|k: int|
            0 <= k < ranges.len() ==> 0 <= (#[trigger] ranges[k]).start.point_in(buffer).row
                <= u32::MAX && 0 <= ranges[k].end.point_in(buffer).row,
    ensures
        forall|k: int|
            0 <= k < stretches_for(ranges, buffer, context).len() ==> showable(
                #[trigger] stretches_for(ranges, buffer, context)[k],
                buffer,
            ),
{
    let t = buffer.bytes();
    let points = points_of(ranges, buffer);
    let max_row = point_at(t, t.len() as int).row;
    let groups = groups_of(ranges, buffer, context);
    lemma_groups(points, 0, context, max_row);
    lemma_summary_sound(t.take(t.len() as int));
    assert forall|k: int| 0 <= k < stretches_for(ranges, buffer, context).len() implies showable(
        #[trigger] stretches_for(ranges, buffer, context)[k],
        buffer,
    ) by {
        let group = groups[k];
        let stretch = stretches_for(ranges, buffer, context)[k];
        lemma_group_last_row(points, group.first, group.first + 1, context, max_row);
        assert(points[group.first].0.row <= points[group.next - 1].1.row);
        let last_row = group.last_row as u32;
        assert(ranges[group.first].start.point_in(buffer) == points[group.first].0);
        assert(ranges[group.next - 1].end.point_in(buffer) == points[group.next - 1].1);
        lemma_rows_showable(buffer, stretch.context.start.row, last_row);
    }
}

/// Whether ranges start and end each no earlier than the one before.
pub open spec fn are_ascending(ranges: Seq<(Pos, Pos)>) -> bool {
    forall|i: int, j: int|
        0 <= i <= j < ranges.len() ==> (#[trigger] ranges[i]).0.row <= (
        #[trigger] ranges[j]).0.row && ranges[i].1.row <= ranges[j].1.row
}

/// Each range lies in a stretch, with `context` rows around it as far as there are
/// rows, as long as ranges start and end each no earlier than the one before.
pub proof fn lemma_stretches_cover<T: ToBufferPoint>(
    ranges: Seq<Range<T>>,
    buffer: BufferSnapshot,
    context: int,
    g: int,
    k: int,
)
    requires
        0 <= context <= u32::MAX,
        are_ascending(points_of(ranges, buffer)),
        buffer.wf(),
        forall|j: int|
            0 <= j < ranges.len() ==> 0 <= (#[trigger] ranges[j]).start.point_in(buffer).row
                <= u32::MAX && 0 <= ranges[j].end.point_in(buffer).row,
        0 <= g < groups_of(ranges, buffer, context).len(),
        groups_of(ranges, buffer, context)[g].first <= k < groups_of(
            ranges,
            buffer,
            context,
        )[g].next,
    ensures
        0 <= k < ranges.len(),
        ({
            let stretch = stretches_for(ranges, buffer, context)[g];
            let max_row = point_at(buffer.bytes(), buffer.bytes().len() as int).row;
            let range = ranges[k];
            &&& stretch.context.start.row == 0 || stretch.context.start.row
                <= range.start.point_in(buffer).row - context
            &&& stretch.context.start.column == 0
            &&& row_below(range.end.point_in(buffer).row, context, max_row)
                <= stretch.context.end.row
        }),
{
    let t = buffer.bytes();
    let points = points_of(ranges, buffer);
    let max_row = point_at(t, t.len() as int).row;
    let groups = groups_of(ranges, buffer, context);
    lemma_groups(points, 0, context, max_row);
    lemma_summary_sound(t.take(t.len() as int));
    let group = groups[g];
    lemma_group_last_row(points, group.first, group.first + 1, context, max_row);
    assert(points[k] == (ranges[k].start.point_in(buffer), ranges[k].end.point_in(buffer)));
    assert(points[group.first].0.row <= points[k].0.row);
    assert(points[k].1.row <= points[group.next - 1].1.row);
    assert(ranges[group.first].start.point_in(buffer) == points[group.first].0);
    assert(ranges[group.next - 1].end.point_in(buffer) == points[group.next - 1].1);
}

/// How many ranges the first `g` stretches show.
pub open spec fn counted(counts: Seq<usize>, g: int) -> int
    decreases g,
{
    if g <= 0 {
        0
    } else {
        counted(counts, g - 1) + counts[g - 1]
    }
}

/// Whether the `k`-th range starts no more than `context` rows behind the last row that
/// is shown for the range before it: that is the row `context` rows behind the end of
/// that range, or the last of the buffer.
pub open spec fn comes_close<T: ToBufferPoint>(
    ranges: Seq<Range<T>>,
    buffer: BufferSnapshot,
    context: int,
    k: int,
) -> bool {
    let end_row = ranges[k - 1].end.point_in(buffer).row;
    let max_row = point_at(buffer.bytes(), buffer.bytes().len() as int).row;
    let start_row = ranges[k].start.point_in(buffer).row;
    start_row <= end_row + 2 * context && start_row <= max_row + context
}

/// The ranges of a group come close to one another, and the range behind it does not
/// come close to its last.
proof fn lemma_group_close(
    ranges: Seq<(Pos, Pos)>,
    first: int,
    next: int,
    context: int,
    max_row: int,
)
    requires
        0 <= first < next <= ranges.len(),
    ensures
        ({
            let last_row = row_below(ranges[next - 1].1.row, context, max_row);
            let group = grown_group(ranges, first, next, last_row, context, max_row);
            &&& next <= group.next <= ranges.len()
            &&& forall|j: int, k: int|
                next <= k < group.next && j == k - 1 ==> (#[trigger] ranges[k]).0.row <= row_below(
                    (#[trigger] ranges[j]).1.row,
                    context,
                    max_row,
                ) + context
            &&& group.last_row == row_below(ranges[group.next - 1].1.row, context, max_row)
            &&& group.next < ranges.len() ==> ranges[group.next].0.row > group.last_row + context
        }),
    decreases ranges.len() - next,
{
    let last_row = row_below(ranges[next - 1].1.row, context, max_row);
    if next < ranges.len() && ranges[next].0.row <= last_row + context {
        lemma_group_close(ranges, first, next + 1, context, max_row);
    }
}

/// A group, and how the one behind it joins on to it.
proof fn lemma_group(ranges: Seq<(Pos, Pos)>, context: int, max_row: int, g: int)
    requires
        0 <= g < groups_from(ranges, 0, context, max_row).len(),
    ensures
        ({
            let groups = groups_from(ranges, 0, context, max_row);
            let group = groups[g];
            &&& 0 <= group.first < group.next <= ranges.len()
            &&& g == 0 ==> group.first == 0
            &&& g + 1 < groups.len() ==> groups[g + 1].first == group.next && 0
                <= groups[g + 1].first < ranges.len()
            &&& g + 1 == groups.len() ==> group.next == ranges.len()
            &&& group == group_at(ranges, group.first, context, max_row)
        }),
{
    let groups = groups_from(ranges, 0, context, max_row);
    lemma_groups(ranges, 0, context, max_row);
    assert(groups.last() == groups[groups.len() - 1]);
    if g + 1 < groups.len() {
        assert(groups[g + 1].first == groups[(g + 1) - 1].next);
    }
}

/// What the stretches show, and how many ranges are counted in each.
///
/// The stretches take the ranges one after the other, each at least one. Two ranges that
/// follow one another are in one stretch just where the second comes close to the first.
/// A stretch starts `context` rows before its first range, or with the first row, and
/// ends at the end of the row `context` rows behind its last range, or of the last row.
/// No row is shown in two stretches that follow one another.
#[verifier::rlimit(50)]
pub proof fn lemma_stretches<T: ToBufferPoint>(
    ranges: Seq<Range<T>>,
    buffer: BufferSnapshot,
    context: int,
    stretches: Seq<ExcerptRange<Point>>,
    counts: Seq<usize>,
    g: int,
)
    requires
        0 <= context <= u32::MAX,
        buffer.wf(),
        forall|j: int|
            0 <= j < ranges.len() ==> 0 <= (#[trigger] ranges[j]).start.point_in(buffer).row
                <= u32::MAX && 0 <= ranges[j].end.point_in(buffer).row,
        stretches == stretches_for(ranges, buffer, context),
        counts.len() == stretches.len(),
        forall|h: int|
            0 <= h < counts.len() ==> #[trigger] counts[h] == groups_of(
                ranges,
                buffer,
                context,
            )[h].next - groups_of(ranges, buffer, context)[h].first,
    ensures
        counted(counts, counts.len() as int) == ranges.len(),
        0 <= g < stretches.len() ==> {
            let t = buffer.bytes();
            let max_row = point_at(t, t.len() as int).row;
            let first = counted(counts, g);
            let next = counted(counts, g + 1);
            let shown = stretches[g].context;
            let start_row = ranges[first].start.point_in(buffer).row;
            let end_row = ranges[next - 1].end.point_in(buffer).row;
            &&& 0 <= first < next <= ranges.len()
            &&& forall|k: int|
                first < k < next ==> #[trigger] comes_close(ranges, buffer, context, k)
            &&& next < ranges.len() ==> !comes_close(ranges, buffer, context, next)
            &&& shown.start.column == 0
            &&& start_row < context ==> shown.start.row == 0
            &&& start_row >= context ==> shown.start.row == start_row - context
            &&& end_row + context <= max_row ==> shown.end.row == end_row + context
            &&& end_row + context > max_row ==> shown.end.row == max_row
            &&& shown.end.column == row_end(t, shown.end.row) - row_start(t, shown.end.row)
            &&& stretches[g].primary == Some(
                Range {
                    start: to_point(ranges[first].start.point_in(buffer)),
                    end: to_point(ranges[first].end.point_in(buffer)),
                },
            )
            &&& g + 1 < stretches.len() ==> shown.end.row < stretches[g + 1].context.start.row
        },
{
    let t = buffer.bytes();
    let max_row = point_at(t, t.len() as int).row;
    let points = points_of(ranges, buffer);
    let groups = groups_of(ranges, buffer, context);
    lemma_summary_sound(t.take(t.len() as int));
    lemma_counted(ranges, buffer, context, counts, counts.len() as int);
    if 0 <= g < stretches.len() {
        lemma_counted(ranges, buffer, context, counts, g);
        lemma_counted(ranges, buffer, context, counts, g + 1);
        let group = groups[g];
        lemma_group(points, context, max_row, g);
        lemma_group_close(points, group.first, group.first + 1, context, max_row);
        assert(points[group.first].0 == ranges[group.first].start.point_in(buffer));
        assert(points[group.next - 1].1 == ranges[group.next - 1].end.point_in(buffer));
        assert(group == group_at(points, group.first, context, max_row));
        assert(stretches[g] == stretch_for(points, group, context, t));
        buffer.lemma_row(stretches[g].context.end.row);
        assert forall|k: int| group.first < k < group.next implies #[trigger] comes_close(
            ranges,
            buffer,
            context,
            k,
        ) by {
            assert(points[k].0 == ranges[k].start.point_in(buffer));
            assert(points[k - 1].1 == ranges[k - 1].end.point_in(buffer));
        }
        if group.next < ranges.len() {
            assert(points[group.next].0 == ranges[group.next].start.point_in(buffer));
        }
        if g + 1 < stretches.len() {
            let after = groups[g + 1];
            assert(points[after.first].0 == ranges[after.first].start.point_in(buffer));
            assert(stretches[g + 1] == stretch_for(points, after, context, t));
        }
    }
}

proof fn lemma_counted<T: ToBufferPoint>(
    ranges: Seq<Range<T>>,
    buffer: BufferSnapshot,
    context: int,
    counts: Seq<usize>,
    g: int,
)
    requires
        counts.len() == groups_of(ranges, buffer, context).len(),
        0 <= g <= counts.len(),
        forall|h: int|
            0 <= h < counts.len() ==> #[trigger] counts[h] == groups_of(
                ranges,
                buffer,
                context,
            )[h].next - groups_of(ranges, buffer, context)[h].first,
    ensures
        g < counts.len() ==> counted(counts, g) == groups_of(ranges, buffer, context)[g].first,
        g == counts.len() ==> counted(counts, g) == ranges.len(),
        g > 0 ==> counted(counts, g) == groups_of(ranges, buffer, context)[g - 1].next,
    decreases g,
{
    let t = buffer.bytes();
    let max_row = point_at(t, t.len() as int).row;
    let points = points_of(ranges, buffer);
    let groups = groups_of(ranges, buffer, context);
    if g > 0 {
        lemma_counted(ranges, buffer, context, counts, g - 1);
        assert(counts[g - 1] == groups[g - 1].next - groups[g - 1].first);
        lemma_group(points, context, max_row, g - 1);
    } else {
        lemma_groups(points, 0, context, max_row);
    }
}

/// No row is shown twice, as long as no range ends in a row before that in which it or an
/// earlier one starts.
pub proof fn lemma_stretches_apart<T: ToBufferPoint>(
    ranges: Seq<Range<T>>,
    buffer: BufferSnapshot,
    context: int,
    g: int,
    h: int,
)
    requires
        0 <= context <= u32::MAX,
        buffer.wf(),
        rows_ascend(points_of(ranges, buffer)),
        forall|j: int|
            0 <= j < ranges.len() ==> 0 <= (#[trigger] ranges[j]).start.point_in(buffer).row
                <= u32::MAX && 0 <= ranges[j].end.point_in(buffer).row,
        0 <= g < h < stretches_for(ranges, buffer, context).len(),
    ensures
        stretches_for(ranges, buffer, context)[g].context.end.row < stretches_for(
            ranges,
            buffer,
            context,
        )[h].context.start.row,
    decreases h,
{
    let t = buffer.bytes();
    let max_row = point_at(t, t.len() as int).row;
    let points = points_of(ranges, buffer);
    let groups = groups_of(ranges, buffer, context);
    let stretches = stretches_for(ranges, buffer, context);
    lemma_group(points, context, max_row, h - 1);
    lemma_summary_sound(t.take(t.len() as int));
    let before = groups[h - 1];
    let after = groups[h];
    lemma_group_close(points, before.first, before.first + 1, context, max_row);
    assert(before == group_at(points, before.first, context, max_row));
    assert(points[after.first].0 == ranges[after.first].start.point_in(buffer));
    assert(points[before.first].0 == ranges[before.first].start.point_in(buffer));
    assert(points[before.next - 1].1 == ranges[before.next - 1].end.point_in(buffer));
    assert(stretches[h] == stretch_for(points, after, context, t));
    assert(stretches[h - 1] == stretch_for(points, before, context, t));
    assert(stretches[h - 1].context.end.row < stretches[h].context.start.row);
    if g < h - 1 {
        lemma_stretches_apart(ranges, buffer, context, g, h - 1);
        assert(points[before.first].0.row <= points[before.next - 1].1.row);
        let earlier = groups[g];
        lemma_group(points, context, max_row, g);
        lemma_group_close(points, earlier.first, earlier.first + 1, context, max_row);
        assert(points[earlier.next - 1].1 == ranges[earlier.next - 1].end.point_in(buffer));
        assert(stretches[g] == stretch_for(points, earlier, context, t));
        assert(stretches[g].context.end.row <= max_row);
        assert(stretches[h - 1].context.end.row == max_row || stretches[h - 1].context.start.row
            <= stretches[h - 1].context.end.row);
    }
}

} // verus!
