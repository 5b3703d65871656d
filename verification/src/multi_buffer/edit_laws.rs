//! What holds of the edits that a multibuffer asks of its buffers.

use std::ops::Range;
use vstd::prelude::*;

use crate::buffer::{BufferId, BufferSnapshot, Capability};
use crate::excerpt::{
    excerpt_start, excerpts_text, lemma_excerpt_position, lemma_excerpt_start_grows,
    lemma_excerpts_text_step, Excerpt, ExcerptId,
};
use crate::multi_buffer::by_buffer::{items_of, lemma_item_at, lemma_item_place};
use crate::multi_buffer::edit::{
    column_of, covered_edits, edited_index, edits_of_edit, edits_of_edits, ids_of_edit,
    ids_of_edits, lemma_covered_edits, lemma_edited_index, lemma_edited_index_grows, BufferEdit,
};
use crate::multi_buffer::plan::{
    asks_buffer, asks_buffer_to_indent, asks_for, asks_to_indent, buffer_with_id, columns_of,
    covered, covers, deletions_of, edits_fit, insertions_of, is_mode, lemma_edits_of_excerpt_fit,
    lemma_in_order_fit, lemma_merged, merged, mode_columns, offset_edits, offsets_of, ranges_of,
    settled, AutoindentMode, BufferChange, EditPlan,
};
use crate::multi_buffer::MultiBuffer;
use crate::position::ToOffset;
use crate::snapshot::{excerpts_wf, lemma_seek_offset};
use crate::sorting::{in_order, is_in_order, lemma_in_order, lemma_in_order_from, Sortable};
use crate::text::Bias;

verus! {

/// Whether a range of the text touches what the `m`-th excerpt shows.
pub open spec fn touches_excerpt(es: Seq<Excerpt>, m: int, range: Range<usize>) -> bool {
    &&& 0 <= m < es.len()
    &&& range.start <= excerpt_start(es, m) + es[m].bytes().len()
    &&& excerpt_start(es, m) <= range.end
}

/// Whether the `m`-th excerpt is the first that a range of the text touches.
pub open spec fn touches_first(es: Seq<Excerpt>, m: int, range: Range<usize>) -> bool {
    &&& touches_excerpt(es, m, range)
    &&& forall|l: int| 0 <= l < m ==> !#[trigger] touches_excerpt(es, l, range)
}

/// Where the part of a range of the text that the `m`-th excerpt shows starts in the
/// buffer.
pub open spec fn part_start(es: Seq<Excerpt>, m: int, range: Range<usize>) -> int {
    if range.start <= excerpt_start(es, m) {
        es[m].start()
    } else {
        es[m].start() + range.start - excerpt_start(es, m)
    }
}

/// Where the part of a range of the text that the `m`-th excerpt shows ends in the
/// buffer.
pub open spec fn part_end(es: Seq<Excerpt>, m: int, range: Range<usize>) -> int {
    if range.end >= excerpt_start(es, m) + es[m].bytes().len() {
        es[m].end()
    } else {
        es[m].start() + range.end - excerpt_start(es, m)
    }
}

/// Whether an edit of a buffer is that of the part which the `m`-th excerpt shows of a
/// range of the text: it replaces that part, and puts the new text in just where the
/// excerpt is the first that the range touches.
pub open spec fn is_edit_of_part(
    es: Seq<Excerpt>,
    m: int,
    range: Range<usize>,
    new_text: String,
    column: u32,
    made: (BufferId, BufferEdit),
) -> bool {
    &&& touches_excerpt(es, m, range)
    &&& made.0 == es[m].buffer_id
    &&& made.1.range.start == part_start(es, m, range)
    &&& made.1.range.end == part_end(es, m, range)
    &&& made.1.is_insertion == touches_first(es, m, range)
    &&& made.1.new_text == new_text
    &&& made.1.original_indent_column == column
}

/// The excerpts from the one that an edit starts in to the one that it ends in are those
/// that it touches.
#[verifier::rlimit(50)]
pub proof fn lemma_touched(es: Seq<Excerpt>, range: Range<usize>, m: int)
    requires
        excerpts_wf(es),
        es.len() > 0,
        range.start <= range.end <= excerpts_text(es).len(),
        0 <= m < es.len(),
    ensures
        ({
            let i = edited_index(es, range.start);
            let j = edited_index(es, range.end);
            &&& 0 <= i <= j < es.len()
            &&& touches_excerpt(es, m, range) <==> i <= m <= j
            &&& i <= m <= j ==> 0 <= part_start(es, m, range) <= part_end(es, m, range)
                <= usize::MAX
        }),
{
    let i = edited_index(es, range.start);
    let j = edited_index(es, range.end);
    lemma_edited_index(es, range.start);
    lemma_edited_index(es, range.end);
    lemma_edited_index_grows(es, range.start, range.end);
    lemma_seek_offset(es, range.start, Bias::Right);
    lemma_seek_offset(es, range.end, Bias::Right);
    lemma_excerpts_text_step(es, m);
    lemma_excerpt_position(es[m], 0);
    assert(es[m].wf() && es[m].buffer.wf());
    if m < i {
        assert(es[m].has_trailing_newline);
        lemma_excerpt_start_grows(es, m + 1, i);
    }
    if j < m {
        lemma_excerpt_start_grows(es, j + 1, m);
    }
    if i < m {
        lemma_excerpt_start_grows(es, i + 1, m);
        assert(es[i].has_trailing_newline);
        lemma_excerpts_text_step(es, i);
    }
    if m < j {
        lemma_excerpt_start_grows(es, m + 1, j);
        assert(es[m].has_trailing_newline);
    }
}

/// The excerpt whose part the `k`-th edit is that one edit of the text makes.
pub open spec fn excerpt_of_edit(es: Seq<Excerpt>, range: Range<usize>, k: int) -> int {
    if k == 0 {
        edited_index(es, range.start)
    } else if k == 1 {
        edited_index(es, range.end)
    } else {
        edited_index(es, range.start) + k - 1
    }
}

#[verifier::rlimit(50)]
proof fn lemma_edit_of_part(
    es: Seq<Excerpt>,
    range: Range<usize>,
    new_text: String,
    column: u32,
    k: int,
)
    requires
        excerpts_wf(es),
        es.len() > 0,
        range.start <= range.end <= excerpts_text(es).len(),
        0 <= k < edits_of_edit(es, range, new_text, column).len(),
    ensures
        ({
            let made = edits_of_edit(es, range, new_text, column);
            let i = edited_index(es, range.start);
            let j = edited_index(es, range.end);
            let m = excerpt_of_edit(es, range, k);
            &&& 0 <= i <= m <= j < es.len()
            &&& made.len() == j - i + 1
            &&& is_edit_of_part(es, m, range, new_text, column, made[k])
            &&& k > 0 ==> m > i
            &&& touches_first(es, i, range)
        }),
{
    let made = edits_of_edit(es, range, new_text, column);
    let i = edited_index(es, range.start);
    let j = edited_index(es, range.end);
    lemma_touched(es, range, 0);
    lemma_edited_index(es, range.start);
    lemma_edited_index(es, range.end);
    if i < j {
        lemma_covered_edits(es, i + 1, j, new_text, column, k - 2);
    }
    let m = excerpt_of_edit(es, range, k);
    lemma_touched(es, range, m);
    lemma_touched(es, range, i);
    assert forall|l: int| 0 <= l < i implies !#[trigger] touches_excerpt(es, l, range) by {
        lemma_touched(es, range, l);
    }
    assert(touches_first(es, i, range));
    if m > i {
        assert(touches_excerpt(es, i, range));
        assert(!touches_first(es, m, range));
    }
    lemma_excerpt_position(es[m], 0);
    lemma_excerpts_text_step(es, m);
    assert(es[m].wf() && es[m].buffer.wf());
    if i < m {
        lemma_excerpt_start_grows(es, i + 1, m);
        lemma_seek_offset(es, range.start, Bias::Right);
    }
    if m < j {
        lemma_excerpt_start_grows(es, m + 1, j);
        assert(es[m].has_trailing_newline);
    }
    if k >= 2 {
        assert(made[k] == covered_edits(es, i + 1, j, new_text, column)[k - 2]);
    }
}

/// One edit of the text makes an edit for each excerpt that its range touches, of the
/// part that the excerpt shows.
pub proof fn lemma_part_edited(
    es: Seq<Excerpt>,
    range: Range<usize>,
    new_text: String,
    column: u32,
    m: int,
) -> (k: int)
    requires
        excerpts_wf(es),
        range.start <= range.end <= excerpts_text(es).len(),
        touches_excerpt(es, m, range),
    ensures
        0 <= k < edits_of_edit(es, range, new_text, column).len(),
        is_edit_of_part(
            es,
            m,
            range,
            new_text,
            column,
            edits_of_edit(es, range, new_text, column)[k],
        ),
        k == 0 <==> touches_first(es, m, range),
        k == part_number(es, m, range),
{
    let i = edited_index(es, range.start);
    let j = edited_index(es, range.end);
    lemma_touched(es, range, m);
    let made = edits_of_edit(es, range, new_text, column);
    assert(made.len() > 0);
    lemma_edit_of_part(es, range, new_text, column, 0);
    let k = if m == i {
        0
    } else if m == j {
        1
    } else {
        m - i + 1
    };
    lemma_edit_of_part(es, range, new_text, column, k);
    if m > i {
        assert(touches_excerpt(es, i, range));
    }
    k
}

/// Which of the edits of one edit of the text is of an excerpt.
proof fn lemma_part_number(
    es: Seq<Excerpt>,
    range: Range<usize>,
    new_text: String,
    column: u32,
    m: int,
    k: int,
)
    requires
        excerpts_wf(es),
        range.start <= range.end <= excerpts_text(es).len(),
        touches_excerpt(es, m, range),
        k == part_number(es, m, range),
    ensures
        forall|l: int|
            0 <= l < edits_of_edit(es, range, new_text, column).len() && #[trigger] excerpt_of_edit(
                es,
                range,
                l,
            ) == m ==> l == k,
{
    let made = edits_of_edit(es, range, new_text, column);
    let i = edited_index(es, range.start);
    let j = edited_index(es, range.end);
    lemma_touched(es, range, m);
    assert forall|l: int| 0 <= l < made.len() && #[trigger] excerpt_of_edit(es, range, l)
        == m implies l == k by {
        lemma_edit_of_part(es, range, new_text, column, l);
    }
}

/// The number of the edit that one edit of the text makes of an excerpt that it touches.
pub open spec fn part_number(es: Seq<Excerpt>, m: int, range: Range<usize>) -> int {
    let i = edited_index(es, range.start);
    if m == i {
        0
    } else if m == edited_index(es, range.end) {
        1
    } else {
        m - i + 1
    }
}

/// One edit of the text makes no other edits: each is of a part of the range, the new
/// text goes in with the first of them only, and no two are of one excerpt.
pub proof fn lemma_edit_is_of_part(
    es: Seq<Excerpt>,
    range: Range<usize>,
    new_text: String,
    column: u32,
    k: int,
    l: int,
) -> (r: (int, int))
    requires
        excerpts_wf(es),
        es.len() > 0,
        range.start <= range.end <= excerpts_text(es).len(),
        0 <= k < l < edits_of_edit(es, range, new_text, column).len() || k == 0 && l == 0,
    ensures
        ({
            let made = edits_of_edit(es, range, new_text, column);
            &&& made.len() > 0
            &&& is_edit_of_part(es, r.0, range, new_text, column, made[k])
            &&& is_edit_of_part(es, r.1, range, new_text, column, made[l])
            &&& k != l ==> r.0 != r.1
            &&& made[k].1.is_insertion == (k == 0)
            &&& made[l].1.is_insertion == (l == 0)
        }),
{
    let i = edited_index(es, range.start);
    lemma_touched(es, range, 0);
    assert(edits_of_edit(es, range, new_text, column).len() > 0);
    lemma_edit_of_part(es, range, new_text, column, k);
    lemma_edit_of_part(es, range, new_text, column, l);
    let r = (excerpt_of_edit(es, range, k), excerpt_of_edit(es, range, l));
    assert(touches_first(es, i, range));
    if k > 0 {
        assert(!touches_first(es, r.0, range));
    }
    if l > 0 {
        assert(!touches_first(es, r.1, range));
    }
    r
}

/// The edits that several edits of the text make are those that each of them makes, with
/// its own text, and with its own column where there is one.
pub proof fn lemma_edits_parts(
    es: Seq<Excerpt>,
    edits: Seq<(Range<usize>, String)>,
    columns: Seq<u32>,
    k: int,
)
    requires
        0 <= k < edits.len(),
    ensures
        ({
            let made = edits_of_edits(es, edits, columns);
            let before = edits_of_edits(es, edits.take(k), columns).len() as int;
            let column = if k < columns.len() {
                columns[k]
            } else {
                0
            };
            let own = edits_of_edit(es, edits[k].0, edits[k].1, column);
            &&& before + own.len() <= made.len()
            &&& made.subrange(before, before + own.len()) == own
        }),
    decreases edits.len(),
{
    let made = edits_of_edits(es, edits, columns);
    let n = edits.len() - 1;
    let front = edits.drop_last();
    if k < n {
        lemma_edits_parts(es, front, columns, k);
        assert(front.take(k) =~= edits.take(k));
        let so_far = edits_of_edits(es, front, columns);
        let before = edits_of_edits(es, edits.take(k), columns).len() as int;
        let own = edits_of_edit(es, edits[k].0, edits[k].1, column_of(columns, k));
        assert(made.subrange(before, before + own.len()) =~= so_far.subrange(
            before,
            before + own.len(),
        ));
    } else {
        assert(edits.take(k) =~= front);
        let own = edits_of_edit(es, edits[k].0, edits[k].1, column_of(columns, k));
        assert(made.subrange(made.len() - own.len(), made.len() as int) =~= own);
    }
}

/// Where an edit of a buffer stems from: the edit of the text, and the number of the edit
/// among those that it makes.
proof fn lemma_edit_origin(
    es: Seq<Excerpt>,
    edits: Seq<(Range<usize>, String)>,
    columns: Seq<u32>,
    p: int,
) -> (r: (int, int))
    requires
        0 <= p < edits_of_edits(es, edits, columns).len(),
    ensures
        ({
            let made = edits_of_edits(es, edits, columns);
            let (k, j) = r;
            let own = edits_of_edit(es, edits[k].0, edits[k].1, column_of(columns, k));
            &&& 0 <= k < edits.len()
            &&& 0 <= j < own.len()
            &&& made[p] == own[j]
            &&& p == edits_of_edits(es, edits.take(k), columns).len() + j
        }),
    decreases edits.len(),
{
    let front = edits.drop_last();
    let so_far = edits_of_edits(es, front, columns);
    let n = edits.len() - 1;
    if p < so_far.len() {
        let (k, j) = lemma_edit_origin(es, front, columns, p);
        assert(front.take(k) =~= edits.take(k));
        (k, j)
    } else {
        assert(edits.take(n) =~= front);
        (n, p - so_far.len())
    }
}

/// The excerpts that are announced as edited are those that the range of some edit
/// touches, and no others.
#[verifier::rlimit(50)]
pub proof fn lemma_edited_ids(
    es: Seq<Excerpt>,
    edits: Seq<(Range<usize>, String)>,
    id: ExcerptId,
)
    requires
        excerpts_wf(es),
        es.len() > 0,
        forall|k: int|
            0 <= k < edits.len() ==> (#[trigger] edits[k]).0.start <= edits[k].0.end
                <= excerpts_text(es).len(),
    ensures
        ids_of_edits(es, edits).contains(id) <==> exists|k: int, m: int|
            0 <= k < edits.len() && #[trigger] touches_excerpt(es, m, edits[k].0) && es[m].id == id,
    decreases edits.len(),
{
    let ids = ids_of_edits(es, edits);
    if edits.len() > 0 {
        let n = edits.len() - 1;
        let front = edits.drop_last();
        let range = edits[n].0;
        let so_far = ids_of_edits(es, front);
        let own = ids_of_edit(es, range);
        assert(edits.last() == edits[n]);
        assert forall|k: int| 0 <= k < front.len() implies (#[trigger] front[k]).0.start
            <= front[k].0.end <= excerpts_text(es).len() by {
            assert(edits[k].0.start <= edits[k].0.end);
        }
        lemma_edited_ids(es, front, id);
        let i = edited_index(es, range.start);
        let j = edited_index(es, range.end);
        lemma_touched(es, range, 0);
        if ids.contains(id) {
            let a = choose|a: int| 0 <= a < ids.len() && ids[a] == id;
            if a < so_far.len() {
                assert(so_far[a] == id);
                let (k, m) = choose|k: int, m: int|
                    0 <= k < front.len() && #[trigger] touches_excerpt(es, m, front[k].0)
                        && es[m].id == id;
                assert(touches_excerpt(es, m, edits[k].0));
            } else {
                let b = a - so_far.len();
                let m = if b == 0 {
                    i
                } else if b == 1 {
                    j
                } else {
                    i + b - 1
                };
                assert(own[b] == id);
                assert(es[m].id == id);
                lemma_touched(es, range, m);
                assert(touches_excerpt(es, m, edits[n].0));
            }
        }
        if exists|k: int, m: int|
            0 <= k < edits.len() && #[trigger] touches_excerpt(es, m, edits[k].0) && es[m].id
                == id {
            let (k, m) = choose|k: int, m: int|
                0 <= k < edits.len() && #[trigger] touches_excerpt(es, m, edits[k].0) && es[m].id
                    == id;
            if k < n {
                assert(touches_excerpt(es, m, front[k].0));
                let a = choose|a: int| 0 <= a < so_far.len() && so_far[a] == id;
                assert(ids[a] == id);
            } else {
                lemma_touched(es, range, m);
                let b = if m == i {
                    0
                } else if m == j {
                    1
                } else {
                    m - i + 1
                };
                assert(own[b] == id);
                assert(ids[so_far.len() + b] == id);
            }
        }
    }
}

/// Whether two edits of a buffer touch.
pub open spec fn touch(a: BufferEdit, b: BufferEdit) -> bool {
    a.range.start <= b.range.end && b.range.start <= a.range.end
}

/// Whether the `f`-th of the edits is one that a settled edit starts with: it has its
/// start, its text and its column.
pub open spec fn starts(edits: Seq<BufferEdit>, f: int, settled: BufferEdit) -> bool {
    &&& 0 <= f < edits.len()
    &&& edits[f].range.start == settled.range.start
    &&& edits[f].range.end <= settled.range.end
    &&& edits[f].new_text == settled.new_text
    &&& edits[f].original_indent_column == settled.original_indent_column
}

/// Whether the `f`-th of the edits is one that ends where a settled edit ends.
pub open spec fn ends(edits: Seq<BufferEdit>, f: int, settled: BufferEdit) -> bool {
    &&& 0 <= f < edits.len()
    &&& settled.range.start <= edits[f].range.start
    &&& edits[f].range.end == settled.range.end
}

/// Whether the `f`-th of the edits puts text in, within a settled edit.
pub open spec fn inserts_within(edits: Seq<BufferEdit>, f: int, settled: BufferEdit) -> bool {
    0 <= f < edits.len() && covers(settled, edits[f]) && edits[f].is_insertion
}

/// Whether a settled edit is made of edits: one that it starts with, one that it ends
/// with, and it puts text in just where one within it does.
pub open spec fn made_of(edits: Seq<BufferEdit>, settled: BufferEdit) -> bool {
    &&& exists|f: int| starts(edits, f, settled)
    &&& exists|f: int| ends(edits, f, settled)
    &&& settled.is_insertion <==> exists|f: int| inserts_within(edits, f, settled)
}

/// An edit more behind the others leaves a settled edit made of them that it does not
/// touch.
proof fn lemma_made_of_more(front: Seq<BufferEdit>, last: BufferEdit, settled: BufferEdit)
    requires
        made_of(front, settled),
        last.range.start > settled.range.end,
        last.range.start <= last.range.end,
    ensures
        made_of(front.push(last), settled),
{
    let edits = front.push(last);
    let a = choose|f: int| starts(front, f, settled);
    assert(starts(edits, a, settled));
    let b = choose|f: int| ends(front, f, settled);
    assert(ends(edits, b, settled));
    if settled.is_insertion {
        let c = choose|f: int| inserts_within(front, f, settled);
        assert(inserts_within(edits, c, settled));
    }
    if exists|f: int| inserts_within(edits, f, settled) {
        let c = choose|f: int| inserts_within(edits, f, settled);
        assert(inserts_within(front, c, settled));
    }
}

#[verifier::rlimit(50)]
proof fn lemma_merged_made_of(edits: Seq<BufferEdit>, len: int, m: int)
    requires
        edits_fit(edits, len),
        is_in_order(edits, ()),
        0 <= m < merged(edits).len(),
    ensures
        made_of(edits, merged(edits)[m]),
    decreases edits.len(),
{
    let front = edits.drop_last();
    let last = edits.last();
    let n = front.len() as int;
    assert(edits =~= front.push(last));
    assert(edits[n] == last);
    assert(last.range.start <= last.range.end);
    assert(is_in_order(front, ())) by {
        assert forall|i: int, j: int| 0 <= i < j < front.len() implies !(
        #[trigger] front[j]).belongs_before(#[trigger] front[i], ()) by {
            assert(!edits[j].belongs_before(edits[i], ()));
        }
    }
    assert forall|k: int| 0 <= k < front.len() implies (#[trigger] front[k]).range.start
        <= front[k].range.end <= len by {
        assert(edits[k].range.start <= edits[k].range.end);
    }
    lemma_merged(front, len);
    let before = merged(front);
    let after = merged(edits);
    let s = after[m];
    if before.len() > 0 && before.last().range.end >= last.range.start {
        let t = before.last();
        let at = before.len() - 1;
        assert(before[at] == t);
        if n > 0 {
            assert(edits[n - 1] == front.last());
            assert(!last.belongs_before(front.last(), ()));
        }
        if m < at {
            lemma_merged_made_of(front, len, m);
            assert(before[m].range.end < before[at].range.start);
            assert(s == before[m]);
            assert(last.range.start >= t.range.start);
            lemma_made_of_more(front, last, s);
        } else {
            lemma_merged_made_of(front, len, at);
            let a = choose|f: int| starts(front, f, t);
            assert(starts(edits, a, s));
            if last.range.end >= t.range.end {
                assert(ends(edits, n, s));
            } else {
                let b = choose|f: int| ends(front, f, t);
                assert(ends(edits, b, s));
            }
            if s.is_insertion {
                if last.is_insertion {
                    assert(inserts_within(edits, n, s));
                } else {
                    let c = choose|f: int| inserts_within(front, f, t);
                    assert(inserts_within(edits, c, s));
                }
            }
            if exists|f: int| inserts_within(edits, f, s) {
                let c = choose|f: int| inserts_within(edits, f, s);
                if c < n {
                    assert(front[c] == edits[c]);
                    assert(covered(before, front[c]));
                    let x = choose|x: int|
                        0 <= x < before.len() && covers(#[trigger] before[x], front[c]);
                    if x < at {
                        assert(before[x].range.end < before[at].range.start);
                    }
                    assert(inserts_within(front, c, t));
                }
            }
        }
    } else {
        if m < before.len() {
            lemma_merged_made_of(front, len, m);
            if m < before.len() - 1 {
                assert(before[m].range.end < before[before.len() - 1].range.start);
                assert(before[before.len() - 1].range.start <= before[before.len() - 1].range.end);
            }
            lemma_made_of_more(front, last, s);
        } else {
            assert(s == last);
            assert(starts(edits, n, s));
            assert(ends(edits, n, s));
            if s.is_insertion {
                assert(inserts_within(edits, n, s));
            }
            if exists|f: int| inserts_within(edits, f, s) {
                let c = choose|f: int| inserts_within(edits, f, s);
                if c < n {
                    assert(front[c] == edits[c]);
                    assert(covered(before, front[c]));
                    let x = choose|x: int|
                        0 <= x < before.len() && covers(#[trigger] before[x], front[c]);
                    if x < before.len() - 1 {
                        assert(before[x].range.end < before[before.len() - 1].range.start);
                        assert(before[before.len() - 1].range.start <= before[before.len()
                            - 1].range.end);
                    }
                }
            }
        }
    }
}

/// What settled edits are made of: each starts with one of the edits, whose text and
/// column it has; ends with one of them; and puts text in just where one within it does.
pub proof fn lemma_settled_made_of(edits: Seq<BufferEdit>, len: int, m: int)
    requires
        edits_fit(edits, len),
        0 <= m < settled(edits).len(),
    ensures
        made_of(edits, settled(edits)[m]),
{
    let sorted = in_order(edits, ());
    let s = settled(edits)[m];
    lemma_in_order_fit(edits, len);
    lemma_merged_made_of(sorted, len, m);
    let a = choose|f: int| starts(sorted, f, s);
    lemma_in_order_from(edits, (), a);
    let x = choose|x: int| 0 <= x < edits.len() && edits[x] == sorted[a];
    assert(starts(edits, x, s));
    let b = choose|f: int| ends(sorted, f, s);
    lemma_in_order_from(edits, (), b);
    let y = choose|y: int| 0 <= y < edits.len() && edits[y] == sorted[b];
    assert(ends(edits, y, s));
    if s.is_insertion {
        let c = choose|f: int| inserts_within(sorted, f, s);
        lemma_in_order_from(edits, (), c);
        let z = choose|z: int| 0 <= z < edits.len() && edits[z] == sorted[c];
        assert(inserts_within(edits, z, s));
    }
    if exists|f: int| inserts_within(edits, f, s) {
        let z = choose|f: int| inserts_within(edits, f, s);
        let c = lemma_sorted_place(edits, z);
        assert(inserts_within(sorted, c, s));
    }
}

/// Every edit is among the sorted ones.
proof fn lemma_sorted_place(edits: Seq<BufferEdit>, k: int) -> (p: int)
    requires
        0 <= k < edits.len(),
    ensures
        0 <= p < in_order(edits, ()).len(),
        in_order(edits, ())[p] == edits[k],
{
    broadcast use vstd::seq_lib::group_to_multiset_ensures;

    let sorted = in_order(edits, ());
    lemma_in_order(edits, ());
    assert(edits.to_multiset().contains(edits[k]));
    assert(sorted.to_multiset().contains(edits[k]));
    assert(sorted.contains(edits[k]));
    choose|p: int| 0 <= p < sorted.len() && sorted[p] == edits[k]
}

/// An edit that touches none of those sorted before and behind it is not merged.
proof fn lemma_merged_lone(edits: Seq<BufferEdit>, len: int, p: int) -> (m: int)
    requires
        edits_fit(edits, len),
        is_in_order(edits, ()),
        0 <= p < edits.len(),
        forall|k: int| 0 <= k < edits.len() && k != p ==> !touch(#[trigger] edits[k], edits[p]),
    ensures
        0 <= m < merged(edits).len(),
        merged(edits)[m] == edits[p],
    decreases edits.len(),
{
    let front = edits.drop_last();
    let last = edits.last();
    let n = front.len() as int;
    let before = merged(front);
    assert(edits[n] == last);
    assert(is_in_order(front, ())) by {
        assert forall|i: int, j: int| 0 <= i < j < front.len() implies !(
        #[trigger] front[j]).belongs_before(#[trigger] front[i], ()) by {
            assert(!edits[j].belongs_before(edits[i], ()));
        }
    }
    assert forall|k: int| 0 <= k < front.len() implies (#[trigger] front[k]).range.start
        <= front[k].range.end <= len by {
        assert(edits[k].range.start <= edits[k].range.end);
    }
    if p < n {
        assert forall|k: int| 0 <= k < front.len() && k != p implies !touch(
            #[trigger] front[k],
            front[p],
        ) by {
            assert(!touch(edits[k], edits[p]));
        }
        let m = lemma_merged_lone(front, len, p);
        assert(!touch(edits[n], edits[p]));
        assert(!last.belongs_before(edits[p], ()));
        assert(edits[p].range.start <= edits[p].range.end);
        assert(last.range.start > before[m].range.end);
        if m == before.len() - 1 {
            assert(before.last() == before[m]);
        }
        assert(merged(edits)[m] == before[m]);
        m
    } else {
        if before.len() > 0 {
            let at = before.len() - 1;
            lemma_merged_made_of(front, len, at);
            let b = choose|f: int| ends(front, f, before[at]);
            assert(edits[b] == front[b]);
            assert(!touch(edits[b], edits[p]));
            assert(!edits[p].belongs_before(edits[b], ()));
            assert(edits[p].range.start <= edits[p].range.end);
            assert(before.last().range.end < last.range.start);
        }
        before.len() as int
    }
}

/// An edit of a buffer that touches no other one stays as it is when the edits settle.
pub proof fn lemma_settled_lone(edits: Seq<BufferEdit>, len: int, k: int) -> (m: int)
    requires
        edits_fit(edits, len),
        0 <= k < edits.len(),
        forall|l: int| 0 <= l < edits.len() && l != k ==> !touch(#[trigger] edits[l], edits[k]),
    ensures
        0 <= m < settled(edits).len(),
        settled(edits)[m] == edits[k],
{
    let sorted = in_order(edits, ());
    lemma_in_order_fit(edits, len);
    let p = lemma_sorted_place(edits, k);
    assert(edits[k].range.start <= edits[k].range.end);
    assert forall|l: int| 0 <= l < sorted.len() && l != p implies !touch(
        #[trigger] sorted[l],
        sorted[p],
    ) by {
        lemma_sorted_once(edits, k, p, l);
    }
    lemma_merged_lone(sorted, len, p)
}

/// An edit that touches no other one is sorted to one place only.
proof fn lemma_sorted_once(edits: Seq<BufferEdit>, k: int, p: int, l: int)
    requires
        0 <= k < edits.len(),
        edits[k].range.start <= edits[k].range.end,
        forall|i: int| 0 <= i < edits.len() && i != k ==> !touch(#[trigger] edits[i], edits[k]),
        0 <= p < in_order(edits, ()).len(),
        0 <= l < in_order(edits, ()).len(),
        p != l,
        in_order(edits, ())[p] == edits[k],
    ensures
        !touch(in_order(edits, ())[l], edits[k]),
{
    broadcast use vstd::seq_lib::group_to_multiset_ensures;

    let sorted = in_order(edits, ());
    lemma_in_order(edits, ());
    lemma_in_order_from(edits, (), l);
    let i = choose|i: int| 0 <= i < edits.len() && edits[i] == sorted[l];
    if i == k {
        let rest = edits.remove(k);
        let others = sorted.remove(p);
        assert(edits =~= rest.insert(k, edits[k]));
        assert(sorted =~= others.insert(p, sorted[p]));
        let o = if l < p {
            l
        } else {
            l - 1
        };
        assert(others[o] == edits[k]);
        assert(others.contains(edits[k]));
        assert(edits.to_multiset() =~= rest.to_multiset().insert(edits[k]));
        assert(sorted.to_multiset() =~= others.to_multiset().insert(edits[k]));
        assert(others.to_multiset().count(edits[k]) > 0);
        assert(rest.to_multiset().count(edits[k]) > 0);
        assert(rest.contains(edits[k]));
        let r = choose|r: int| 0 <= r < rest.len() && rest[r] == edits[k];
        let e = if r < k {
            r
        } else {
            r + 1
        };
        assert(edits[e] == edits[k]);
        assert(touch(edits[e], edits[k]));
    }
}

/// A buffer is asked for every settled edit that puts text in, each with its own range,
/// text and column, in order; and to delete the range of every other one that has any.
/// It is asked for nothing else.
pub proof fn lemma_asked_for_all(
    change: BufferChange,
    edits: Seq<BufferEdit>,
    buffer: BufferSnapshot,
    mode: Option<AutoindentMode>,
)
    requires
        asks_for(change, edits, buffer, mode),
    ensures
        change.insertions@ == edits.filter(|edit: BufferEdit| edit.is_insertion).map_values(
            |edit: BufferEdit|
                (
                    Range {
                        start: buffer.anchor_spec(edit.range.start as int, Bias::Left),
                        end: buffer.anchor_spec(edit.range.end as int, Bias::Left),
                    },
                    edit.new_text,
                ),
        ),
        change.deletions@ == edits.filter(
            |edit: BufferEdit| !edit.is_insertion && edit.range.start < edit.range.end,
        ).map_values(
            |edit: BufferEdit|
                Range {
                    start: buffer.anchor_spec(edit.range.start as int, Bias::Left),
                    end: buffer.anchor_spec(edit.range.end as int, Bias::Left),
                },
        ),
        mode matches Some(AutoindentMode::Block { .. })
            ==> change.insertion_autoindent_mode matches Some(
            AutoindentMode::Block { original_indent_columns },
        ) && original_indent_columns@ == edits.filter(
            |edit: BufferEdit| edit.is_insertion,
        ).map_values(|edit: BufferEdit| edit.original_indent_column),
        mode matches Some(AutoindentMode::Block { .. })
            ==> change.deletion_autoindent_mode matches Some(
            AutoindentMode::Block { original_indent_columns },
        ) && original_indent_columns@.len() == 0,
        mode matches Some(AutoindentMode::EachLine) ==> change.insertion_autoindent_mode
            == Some(AutoindentMode::EachLine) && change.deletion_autoindent_mode
            == Some(AutoindentMode::EachLine),
        mode is None ==> change.insertion_autoindent_mode is None
            && change.deletion_autoindent_mode is None,
{
    lemma_insertions(edits, buffer);
    lemma_deletions(edits, buffer);
    lemma_columns(edits);
}

proof fn lemma_insertions(edits: Seq<BufferEdit>, buffer: BufferSnapshot)
    ensures
        insertions_of(edits, buffer) == edits.filter(
            |edit: BufferEdit| edit.is_insertion,
        ).map_values(
            |edit: BufferEdit|
                (
                    Range {
                        start: buffer.anchor_spec(edit.range.start as int, Bias::Left),
                        end: buffer.anchor_spec(edit.range.end as int, Bias::Left),
                    },
                    edit.new_text,
                ),
        ),
    decreases edits.len(),
{
    reveal(Seq::filter);
    let inserts = |edit: BufferEdit| edit.is_insertion;
    let asked = |edit: BufferEdit|
        (
            Range {
                start: buffer.anchor_spec(edit.range.start as int, Bias::Left),
                end: buffer.anchor_spec(edit.range.end as int, Bias::Left),
            },
            edit.new_text,
        );
    if edits.len() > 0 {
        let front = edits.drop_last();
        lemma_insertions(front, buffer);
        assert(edits.filter(inserts).map_values(asked) =~= insertions_of(edits, buffer));
    } else {
        assert(edits.filter(inserts).map_values(asked) =~= insertions_of(edits, buffer));
    }
}

proof fn lemma_deletions(edits: Seq<BufferEdit>, buffer: BufferSnapshot)
    ensures
        deletions_of(edits, buffer) == edits.filter(
            |edit: BufferEdit| !edit.is_insertion && edit.range.start < edit.range.end,
        ).map_values(
            |edit: BufferEdit|
                Range {
                    start: buffer.anchor_spec(edit.range.start as int, Bias::Left),
                    end: buffer.anchor_spec(edit.range.end as int, Bias::Left),
                },
        ),
    decreases edits.len(),
{
    reveal(Seq::filter);
    let deletes = |edit: BufferEdit| !edit.is_insertion && edit.range.start < edit.range.end;
    let asked = |edit: BufferEdit|
        Range {
            start: buffer.anchor_spec(edit.range.start as int, Bias::Left),
            end: buffer.anchor_spec(edit.range.end as int, Bias::Left),
        };
    if edits.len() > 0 {
        let front = edits.drop_last();
        lemma_deletions(front, buffer);
        assert(edits.filter(deletes).map_values(asked) =~= deletions_of(edits, buffer));
    } else {
        assert(edits.filter(deletes).map_values(asked) =~= deletions_of(edits, buffer));
    }
}

proof fn lemma_columns(edits: Seq<BufferEdit>)
    ensures
        columns_of(edits) == edits.filter(|edit: BufferEdit| edit.is_insertion).map_values(
            |edit: BufferEdit| edit.original_indent_column,
        ),
    decreases edits.len(),
{
    reveal(Seq::filter);
    let inserts = |edit: BufferEdit| edit.is_insertion;
    let column = |edit: BufferEdit| edit.original_indent_column;
    if edits.len() > 0 {
        lemma_columns(edits.drop_last());
        assert(edits.filter(inserts).map_values(column) =~= columns_of(edits));
    } else {
        assert(edits.filter(inserts).map_values(column) =~= columns_of(edits));
    }
}

/// Which insertion a settled edit that puts text in is: the one before which there are as
/// many as there are such edits before it.
proof fn lemma_insertion_place(edits: Seq<BufferEdit>, buffer: BufferSnapshot, m: int)
    requires
        0 <= m < edits.len(),
        edits[m].is_insertion,
    ensures
        ({
            let q = insertions_of(edits.take(m), buffer).len() as int;
            &&& 0 <= q < insertions_of(edits, buffer).len()
            &&& insertions_of(edits, buffer)[q].0.start == buffer.anchor_spec(
                edits[m].range.start as int,
                Bias::Left,
            )
            &&& insertions_of(edits, buffer)[q].0.end == buffer.anchor_spec(
                edits[m].range.end as int,
                Bias::Left,
            )
            &&& insertions_of(edits, buffer)[q].1 == edits[m].new_text
        }),
    decreases edits.len(),
{
    let front = edits.drop_last();
    if m < front.len() {
        lemma_insertion_place(front, buffer, m);
        assert(front.take(m) =~= edits.take(m));
    } else {
        assert(edits.take(m) =~= front);
    }
}

/// Whether the `k`-th edit of the text has a part in the `i`-th excerpt, and no other part
/// of any edit of the same buffer touches that part.
pub open spec fn is_lone(
    es: Seq<Excerpt>,
    edits: Seq<(Range<usize>, String)>,
    k: int,
    i: int,
) -> bool {
    &&& 0 <= k < edits.len()
    &&& touches_excerpt(es, i, edits[k].0)
    &&& forall|l: int, m: int|
        0 <= l < edits.len() && #[trigger] touches_excerpt(es, m, edits[l].0) && (l != k || m != i)
            && es[m].buffer_id == es[i].buffer_id ==> part_end(es, m, edits[l].0) < part_start(
            es,
            i,
            edits[k].0,
        ) || part_end(es, i, edits[k].0) < part_start(es, m, edits[l].0)
}

/// The edit of its buffer that a lone part of an edit of the text makes stays as it is.
#[verifier::rlimit(50)]
proof fn lemma_lone_settled(
    es: Seq<Excerpt>,
    edits: Seq<(Range<usize>, String)>,
    columns: Seq<u32>,
    len: int,
    k: int,
    i: int,
) -> (m: int)
    requires
        excerpts_wf(es),
        es.len() > 0,
        forall|l: int|
            0 <= l < edits.len() ==> (#[trigger] edits[l]).0.start <= edits[l].0.end
                <= excerpts_text(es).len(),
        is_lone(es, edits, k, i),
        edits_fit(items_of(edits_of_edits(es, edits, columns), es[i].buffer_id), len),
    ensures
        ({
            let all = settled(items_of(edits_of_edits(es, edits, columns), es[i].buffer_id));
            &&& 0 <= m < all.len()
            &&& is_edit_of_part(
                es,
                i,
                edits[k].0,
                edits[k].1,
                column_of(columns, k),
                (es[i].buffer_id, all[m]),
            )
        }),
{
    let made = edits_of_edits(es, edits, columns);
    let id = es[i].buffer_id;
    let items = items_of(made, id);
    let own = edits_of_edit(es, edits[k].0, edits[k].1, column_of(columns, k));
    let before = edits_of_edits(es, edits.take(k), columns).len() as int;
    lemma_edits_parts(es, edits, columns, k);
    let o = lemma_part_edited(es, edits[k].0, edits[k].1, column_of(columns, k), i);
    let at = before + o;
    assert(made.subrange(before, before + own.len())[o] == made[at]);
    assert(made[at] == own[o]);
    let q = lemma_item_place(made, at);
    assert(items[q] == own[o].1);
    assert forall|r: int| 0 <= r < items.len() && r != q implies !touch(
        #[trigger] items[r],
        items[q],
    ) by {
        let p = lemma_item_at(made, id, r);
        if p == at {
            assert(r == q);
        }
        let (l, j) = lemma_edit_origin(es, edits, columns, p);
        assert(edits[l].0.start <= edits[l].0.end);
        lemma_edit_of_part(es, edits[l].0, edits[l].1, column_of(columns, l), j);
        let m = excerpt_of_edit(es, edits[l].0, j);
        assert(touches_excerpt(es, m, edits[l].0));
        if l == k {
            assert(j != o);
            lemma_edit_of_part(es, edits[k].0, edits[k].1, column_of(columns, k), o);
            lemma_part_number(es, edits[k].0, edits[k].1, column_of(columns, k), i, o);
            assert(m != i);
        }
        assert(items[r] == made[p].1);
        assert(es[m].buffer_id == id);
    }
    lemma_settled_lone(items, len, q)
}

/// The column of a settled edit that puts text in has the place of its insertion.
proof fn lemma_column_place(edits: Seq<BufferEdit>, buffer: BufferSnapshot, m: int)
    requires
        0 <= m < edits.len(),
        edits[m].is_insertion,
    ensures
        ({
            let q = insertions_of(edits.take(m), buffer).len() as int;
            &&& columns_of(edits).len() == insertions_of(edits, buffer).len()
            &&& 0 <= q < columns_of(edits).len()
            &&& columns_of(edits)[q] == edits[m].original_indent_column
        }),
    decreases edits.len(),
{
    let front = edits.drop_last();
    lemma_column_count(front, buffer);
    if m < front.len() {
        lemma_column_place(front, buffer, m);
        assert(front.take(m) =~= edits.take(m));
    } else {
        assert(edits.take(m) =~= front);
    }
}

proof fn lemma_column_count(edits: Seq<BufferEdit>, buffer: BufferSnapshot)
    ensures
        columns_of(edits).len() == insertions_of(edits, buffer).len(),
    decreases edits.len(),
{
    if edits.len() > 0 {
        lemma_column_count(edits.drop_last(), buffer);
    }
}

/// Which deletion a settled edit that only deletes is.
proof fn lemma_deletion_place(edits: Seq<BufferEdit>, buffer: BufferSnapshot, m: int)
    requires
        0 <= m < edits.len(),
        !edits[m].is_insertion,
        edits[m].range.start < edits[m].range.end,
    ensures
        ({
            let q = deletions_of(edits.take(m), buffer).len() as int;
            &&& 0 <= q < deletions_of(edits, buffer).len()
            &&& deletions_of(edits, buffer)[q].start == buffer.anchor_spec(
                edits[m].range.start as int,
                Bias::Left,
            )
            &&& deletions_of(edits, buffer)[q].end == buffer.anchor_spec(
                edits[m].range.end as int,
                Bias::Left,
            )
        }),
    decreases edits.len(),
{
    let front = edits.drop_last();
    if m < front.len() {
        lemma_deletion_place(front, buffer, m);
        assert(front.take(m) =~= edits.take(m));
    } else {
        assert(edits.take(m) =~= front);
    }
}

/// One of the edits that edits of the text make is of the buffer of an excerpt that they
/// touch.
proof fn lemma_buffer_edited(
    es: Seq<Excerpt>,
    edits: Seq<(Range<usize>, String)>,
    columns: Seq<u32>,
    k: int,
    i: int,
) -> (p: int)
    requires
        excerpts_wf(es),
        0 <= k < edits.len(),
        edits[k].0.start <= edits[k].0.end <= excerpts_text(es).len(),
        touches_excerpt(es, i, edits[k].0),
    ensures
        0 <= p < edits_of_edits(es, edits, columns).len(),
        edits_of_edits(es, edits, columns)[p].0 == es[i].buffer_id,
{
    let made = edits_of_edits(es, edits, columns);
    let own = edits_of_edit(es, edits[k].0, edits[k].1, column_of(columns, k));
    let start = edits_of_edits(es, edits.take(k), columns).len() as int;
    lemma_edits_parts(es, edits, columns, k);
    let o = lemma_part_edited(es, edits[k].0, edits[k].1, column_of(columns, k), i);
    assert(made.subrange(start, start + own.len())[o] == made[start + o]);
    start + o
}

impl MultiBuffer {
    /// Whether edits can be planned over several buffers.
    pub open spec fn plans_for_buffers<S: ToOffset>(
        &self,
        edits: Seq<(Range<S>, String)>,
    ) -> bool {
        &&& self.wf()
        &&& self.snapshot.excerpts@.len() > 0
        &&& self.capability != Capability::ReadOnly
        &&& self.buffers@.len() > 0
        &&& !self.singleton
        &&& forall|l: int|
            0 <= l < edits.len() ==> (#[trigger] offset_edits(edits, self.snapshot)[l]).0.start
                <= offset_edits(edits, self.snapshot)[l].0.end <= self.snapshot.bytes().len()
    }

    /// A lone part of an edit of the text is settled by itself, in the change of its buffer.
    #[verifier::rlimit(50)]
    proof fn lemma_part_settled<S: ToOffset>(
        &self,
        before: &MultiBuffer,
        edits: Seq<(Range<S>, String)>,
        autoindent_mode: Option<AutoindentMode>,
        plan: EditPlan,
        k: int,
        i: int,
    ) -> (r: (int, int))
        requires
            before.plans_for_buffers(edits),
            self.has_planned(before, edits, autoindent_mode, plan),
            is_lone(before.snapshot.excerpts@, offset_edits(edits, before.snapshot), k, i),
        ensures
            ({
                let es = before.snapshot.excerpts@;
                let columns = mode_columns(autoindent_mode);
                let offsets = offset_edits(edits, before.snapshot);
                let all = settled(
                    items_of(edits_of_edits(es, offsets, columns), es[i].buffer_id),
                );
                let (a, m) = r;
                &&& plan matches EditPlan::Buffers(changes) && 0 <= a < changes@.len()
                    && changes@[a].buffer_id == es[i].buffer_id && changes@[a].insertions@
                    == insertions_of(all, *es[i].buffer) && changes@[a].deletions@
                    == deletions_of(all, *es[i].buffer) && is_mode(
                    changes@[a].insertion_autoindent_mode,
                    autoindent_mode,
                    columns_of(all),
                )
                &&& 0 <= m < all.len()
                &&& is_edit_of_part(
                    es,
                    i,
                    offsets[k].0,
                    edits[k].1,
                    column_of(columns, k),
                    (es[i].buffer_id, all[m]),
                )
            }),
    {
        let es = before.snapshot.excerpts@;
        let offsets = offset_edits(edits, before.snapshot);
        let columns = mode_columns(autoindent_mode);
        let made = edits_of_edits(es, offsets, columns);
        let id = es[i].buffer_id;
        let changes = plan->Buffers_0@;
        assert(offsets[k].0.start <= offsets[k].0.end);
        let p = lemma_buffer_edited(es, offsets, columns, k, i);
        assert(asks_buffer(changes, made[p].0));
        let a = choose|a: int| 0 <= a < changes.len() && (#[trigger] changes[a]).buffer_id == id;
        let items = items_of(made, id);
        let buffer = buffer_with_id(before.buffers@, id);
        assert(asks_for(changes[a], settled(items), buffer, autoindent_mode));
        assert(buffer == *es[i].buffer && edits_fit(items, buffer.bytes().len() as int)) by {
            lemma_edits_of_excerpt_fit(before, offsets, columns, i);
        }
        let m = lemma_lone_settled(es, offsets, columns, buffer.bytes().len() as int, k, i);
        (a, m)
    }

    /// The text of an edit whose part in the excerpt that takes it touches no other part
    /// of an edit of the same buffer is asked for of that buffer, in place of that part.
    /// So typing with several cursors asks for each of the texts, each in its place.
    #[verifier::rlimit(50)]
    pub proof fn lemma_each_edit_asked_for<S: ToOffset>(
        &self,
        before: &MultiBuffer,
        edits: Seq<(Range<S>, String)>,
        autoindent_mode: Option<AutoindentMode>,
        plan: EditPlan,
        k: int,
        i: int,
    ) -> (r: (int, int))
        requires
            before.plans_for_buffers(edits),
            self.has_planned(before, edits, autoindent_mode, plan),
            is_lone(before.snapshot.excerpts@, offset_edits(edits, before.snapshot), k, i),
            touches_first(
                before.snapshot.excerpts@,
                i,
                offset_edits(edits, before.snapshot)[k].0,
            ),
        ensures
            ({
                let es = before.snapshot.excerpts@;
                let range = offsets_of(edits[k].0, before.snapshot);
                let (a, q) = r;
                &&& 0 <= k < edits.len()
                &&& plan matches EditPlan::Buffers(changes) && 0 <= a < changes@.len()
                    && changes@[a].buffer_id == es[i].buffer_id && 0 <= q
                    < changes@[a].insertions@.len() && changes@[a].insertions@[q] == (
                    Range {
                        start: es[i].buffer.anchor_spec(part_start(es, i, range), Bias::Left),
                        end: es[i].buffer.anchor_spec(part_end(es, i, range), Bias::Left),
                    },
                    edits[k].1,
                ) && (autoindent_mode matches Some(
                    AutoindentMode::Block { original_indent_columns: asked },
                ) ==> changes@[a].insertion_autoindent_mode matches Some(
                    AutoindentMode::Block { original_indent_columns },
                ) && q < original_indent_columns@.len() && original_indent_columns@[q] == if k
                    < asked@.len() {
                    asked@[k]
                } else {
                    0
                })
            }),
    {
        let es = before.snapshot.excerpts@;
        let offsets = offset_edits(edits, before.snapshot);
        let columns = mode_columns(autoindent_mode);
        let (a, m) = self.lemma_part_settled(before, edits, autoindent_mode, plan, k, i);
        let all = settled(items_of(edits_of_edits(es, offsets, columns), es[i].buffer_id));
        let buffer = buffer_with_id(before.buffers@, es[i].buffer_id);
        assert(buffer == *es[i].buffer) by {
            lemma_edits_of_excerpt_fit(before, offsets, columns, i);
        }
        lemma_insertion_place(all, buffer, m);
        lemma_column_place(all, buffer, m);
        (a, insertions_of(all.take(m), buffer).len() as int)
    }

    /// What an edit covers of a later excerpt, where no other part of an edit of the same
    /// buffer touches it, is asked to be deleted of that buffer.
    #[verifier::rlimit(50)]
    pub proof fn lemma_each_part_deleted<S: ToOffset>(
        &self,
        before: &MultiBuffer,
        edits: Seq<(Range<S>, String)>,
        autoindent_mode: Option<AutoindentMode>,
        plan: EditPlan,
        k: int,
        i: int,
    ) -> (r: (int, int))
        requires
            before.plans_for_buffers(edits),
            self.has_planned(before, edits, autoindent_mode, plan),
            is_lone(before.snapshot.excerpts@, offset_edits(edits, before.snapshot), k, i),
            ({
                let es = before.snapshot.excerpts@;
                let range = offset_edits(edits, before.snapshot)[k].0;
                !touches_first(es, i, range) && part_start(es, i, range) < part_end(es, i, range)
            }),
        ensures
            ({
                let es = before.snapshot.excerpts@;
                let range = offsets_of(edits[k].0, before.snapshot);
                let (a, q) = r;
                &&& 0 <= k < edits.len()
                &&& plan matches EditPlan::Buffers(changes) && 0 <= a < changes@.len()
                    && changes@[a].buffer_id == es[i].buffer_id && 0 <= q
                    < changes@[a].deletions@.len() && changes@[a].deletions@[q] == (Range {
                    start: es[i].buffer.anchor_spec(part_start(es, i, range), Bias::Left),
                    end: es[i].buffer.anchor_spec(part_end(es, i, range), Bias::Left),
                })
            }),
    {
        let es = before.snapshot.excerpts@;
        let offsets = offset_edits(edits, before.snapshot);
        let columns = mode_columns(autoindent_mode);
        let (a, m) = self.lemma_part_settled(before, edits, autoindent_mode, plan, k, i);
        let all = settled(items_of(edits_of_edits(es, offsets, columns), es[i].buffer_id));
        let buffer = buffer_with_id(before.buffers@, es[i].buffer_id);
        assert(buffer == *es[i].buffer) by {
            lemma_edits_of_excerpt_fit(before, offsets, columns, i);
        }
        lemma_deletion_place(all, buffer, m);
        (a, deletions_of(all.take(m), buffer).len() as int)
    }
}

impl MultiBuffer {
    /// Nothing is asked of the buffers of a multibuffer that can only be read, and nothing
    /// changes.
    pub proof fn lemma_read_only_edits<S: ToOffset>(
        &self,
        before: &MultiBuffer,
        edits: Seq<(Range<S>, String)>,
        autoindent_mode: Option<AutoindentMode>,
        plan: EditPlan,
    )
        requires
            before.capability == Capability::ReadOnly,
            self.has_planned(before, edits, autoindent_mode, plan),
        ensures
            plan is Nothing,
            *self == *before,
    {
    }

    /// The only buffer of a multibuffer is asked for each edit as it is, with its own text,
    /// the smaller end of its range first.
    pub proof fn lemma_singleton_edits<S: ToOffset>(
        &self,
        before: &MultiBuffer,
        edits: Seq<(Range<S>, String)>,
        autoindent_mode: Option<AutoindentMode>,
        plan: EditPlan,
        k: int,
    )
        requires
            before.capability != Capability::ReadOnly,
            before.singleton,
            before.buffers@.len() > 0,
            self.has_planned(before, edits, autoindent_mode, plan),
            0 <= k < edits.len(),
        ensures
            plan matches EditPlan::Singleton { buffer_id, edits: asked, autoindent_mode: mode }
                && buffer_id == before.buffers@[0].buffer.remote_id && asked@.len() == edits.len()
                && mode == autoindent_mode && asked@[k].1 == edits[k].1 && ({
                let a = edits[k].0.start.offset(before.snapshot) as usize;
                let b = edits[k].0.end.offset(before.snapshot) as usize;
                let range = asked@[k].0;
                &&& range.start <= range.end
                &&& range.start == a && range.end == b || range.start == b && range.end == a
            }),
    {
    }
}

/// What a range to indent covers of an excerpt, where no other part of a range of the same
/// buffer touches it, is asked to be indented of that buffer.
pub proof fn lemma_each_range_indented(
    multibuffer: &MultiBuffer,
    plan: Seq<(BufferId, Vec<Range<usize>>)>,
    edits: Seq<(Range<usize>, String)>,
    k: int,
    i: int,
) -> (r: (int, int))
    requires
        multibuffer.wf(),
        forall|l: int|
            0 <= l < edits.len() ==> (#[trigger] edits[l]).0.start <= edits[l].0.end
                <= multibuffer.snapshot.bytes().len(),
        asks_to_indent(
            plan,
            edits_of_edits(multibuffer.snapshot.excerpts@, edits, seq![]),
        ),
        is_lone(multibuffer.snapshot.excerpts@, edits, k, i),
    ensures
        ({
            let es = multibuffer.snapshot.excerpts@;
            let (a, q) = r;
            &&& 0 <= a < plan.len()
            &&& plan[a].0 == es[i].buffer_id
            &&& 0 <= q < plan[a].1@.len()
            &&& plan[a].1@[q].start == part_start(es, i, edits[k].0)
            &&& plan[a].1@[q].end == part_end(es, i, edits[k].0)
        }),
{
    let es = multibuffer.snapshot.excerpts@;
    let made = edits_of_edits(es, edits, seq![]);
    let id = es[i].buffer_id;
    assert(edits[k].0.start <= edits[k].0.end);
    let p = lemma_buffer_edited(es, edits, seq![], k, i);
    assert(asks_buffer_to_indent(plan, made[p].0));
    let a = choose|a: int| 0 <= a < plan.len() && (#[trigger] plan[a]).0 == id;
    lemma_edits_of_excerpt_fit(multibuffer, edits, seq![], i);
    let len = es[i].buffer.bytes().len() as int;
    let m = lemma_lone_settled(es, edits, seq![], len, k, i);
    assert(plan[a].1@ == ranges_of(settled(items_of(made, id))));
    (a, m)
}

} // verus!
