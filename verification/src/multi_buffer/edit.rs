//! Turning edits of a multibuffer into edits of its buffers.

use std::ops::Range;
use std::sync::Arc;
use vstd::prelude::*;

use crate::buffer::{BufferId, BufferSnapshot};
use crate::excerpt::{
    excerpt_start, excerpts_text, lemma_excerpt_position, lemma_excerpt_start_grows,
    lemma_excerpts_text_concat, lemma_excerpts_text_split, lemma_excerpts_text_step,
    lemma_text_within, trailing_newline, Excerpt, ExcerptId,
};
use crate::multi_buffer::by_buffer::{sort_out, sorted_out, OfBuffer};
use crate::snapshot::{excerpts_wf, lemma_seek_offset, seek_index, MultiBufferSnapshot};
use crate::text::{Bias, MAX_TEXT_LEN, NEWLINE};

verus! {

/// An edit of one buffer that stems from an edit of the multibuffer.
#[derive(Debug)]
pub struct BufferEdit {
    pub range: Range<usize>,
    pub new_text: String,
    /// Whether the new text goes in here, or the range is only deleted.
    pub is_insertion: bool,
    pub original_indent_column: u32,
}

/// The excerpt that an edit at `offset` falls into: the one that shows what
/// stands behind the offset, or at the end of the text the last one.
pub open spec fn edited_index(es: Seq<Excerpt>, offset: usize) -> int {
    let i = seek_index(es, offset, Bias::Right, 0);
    if i == es.len() {
        i - 1
    } else {
        i
    }
}

/// Where `offset` lies in the buffer of the `i`-th excerpt.
pub open spec fn offset_in_buffer(es: Seq<Excerpt>, i: int, offset: int) -> int {
    es[i].start() + offset - excerpt_start(es, i)
}

pub open spec fn buffer_edit(
    start: int,
    end: int,
    new_text: String,
    is_insertion: bool,
    original_indent_column: u32,
) -> BufferEdit {
    BufferEdit {
        range: Range { start: start as usize, end: end as usize },
        new_text,
        is_insertion,
        original_indent_column,
    }
}

/// The edits that delete what the excerpts from `from` to before `to` show.
pub open spec fn covered_edits(
    es: Seq<Excerpt>,
    from: int,
    to: int,
    new_text: String,
    column: u32,
) -> Seq<(BufferId, BufferEdit)>
    decreases to - from,
{
    if from >= to {
        seq![]
    } else {
        covered_edits(es, from, to - 1, new_text, column).push(
            (
                es[to - 1].buffer_id,
                buffer_edit(es[to - 1].start(), es[to - 1].end(), new_text, false, column),
            ),
        )
    }
}

/// The edits of buffers that one edit of the multibuffer makes: the new text
/// goes into the first excerpt that the range touches, and what the range
/// covers of the others is deleted.
pub open spec fn edits_of_edit(
    es: Seq<Excerpt>,
    range: Range<usize>,
    new_text: String,
    column: u32,
) -> Seq<(BufferId, BufferEdit)> {
    let i = edited_index(es, range.start);
    let j = edited_index(es, range.end);
    let start = offset_in_buffer(es, i, range.start as int);
    let end = offset_in_buffer(es, j, range.end as int);
    if i == j {
        seq![(es[i].buffer_id, buffer_edit(start, end, new_text, true, column))]
    } else {
        seq![
            (es[i].buffer_id, buffer_edit(start, es[i].end(), new_text, true, column)),
            (es[j].buffer_id, buffer_edit(es[j].start(), end, new_text, false, column)),
        ] + covered_edits(es, i + 1, j, new_text, column)
    }
}

/// The excerpts that one edit of the multibuffer touches.
pub open spec fn ids_of_edit(es: Seq<Excerpt>, range: Range<usize>) -> Seq<ExcerptId> {
    let i = edited_index(es, range.start);
    let j = edited_index(es, range.end);
    if i == j {
        seq![es[i].id]
    } else {
        seq![es[i].id, es[j].id] + Seq::new((j - i - 1) as nat, |m: int| es[i + 1 + m].id)
    }
}

/// The `k`-th of the columns, or zero where there are fewer.
pub open spec fn column_of(columns: Seq<u32>, k: int) -> u32 {
    if k < columns.len() {
        columns[k]
    } else {
        0
    }
}

/// The edits of buffers that a list of edits makes, one after the other.
pub open spec fn edits_of_edits(
    es: Seq<Excerpt>,
    edits: Seq<(Range<usize>, String)>,
    columns: Seq<u32>,
) -> Seq<(BufferId, BufferEdit)>
    decreases edits.len(),
{
    if edits.len() == 0 {
        seq![]
    } else {
        let k = edits.len() - 1;
        edits_of_edits(es, edits.drop_last(), columns) + edits_of_edit(
            es,
            edits[k].0,
            edits[k].1,
            column_of(columns, k),
        )
    }
}

/// The excerpts that a list of edits touches.
pub open spec fn ids_of_edits(
    es: Seq<Excerpt>,
    edits: Seq<(Range<usize>, String)>,
) -> Seq<ExcerptId>
    decreases edits.len(),
{
    if edits.len() == 0 {
        seq![]
    } else {
        ids_of_edits(es, edits.drop_last()) + ids_of_edit(es, edits.last().0)
    }
}

/// An edit falls into what its excerpt shows.
pub proof fn lemma_edited_index(es: Seq<Excerpt>, offset: usize)
    requires
        excerpts_wf(es),
        es.len() > 0,
        offset <= excerpts_text(es).len(),
    ensures
        ({
            let i = edited_index(es, offset);
            &&& 0 <= i < es.len()
            &&& excerpt_start(es, i) <= offset <= excerpt_start(es, i) + es[i].bytes().len()
            &&& es[i].start() <= offset_in_buffer(es, i, offset as int) <= es[i].end()
        }),
{
    let i = edited_index(es, offset);
    lemma_seek_offset(es, offset, Bias::Right);
    lemma_excerpts_text_step(es, i);
    lemma_excerpt_position(es[i], 0);
    if seek_index(es, offset, Bias::Right, 0) == es.len() {
        assert(es.take(i + 1) =~= es);
        assert(es[i].text() =~= es[i].bytes());
    }
}

/// An edit at a later offset falls into the same excerpt or a later one.
pub proof fn lemma_edited_index_grows(es: Seq<Excerpt>, a: usize, b: usize)
    requires
        excerpts_wf(es),
        es.len() > 0,
        a <= b <= excerpts_text(es).len(),
    ensures
        edited_index(es, a) <= edited_index(es, b),
{
    lemma_seek_offset(es, a, Bias::Right);
    lemma_seek_offset(es, b, Bias::Right);
    let i = seek_index(es, a, Bias::Right, 0);
    let j = seek_index(es, b, Bias::Right, 0);
    if j < i {
        lemma_excerpt_start_grows(es, j + 1, i);
    }
}

impl MultiBufferSnapshot {
    /// The excerpt that an edit at `offset` falls into, and the offset in its
    /// buffer.
    fn edited_position(&self, offset: usize) -> (r: (usize, usize))
        requires
            self.wf(),
            self.excerpts@.len() > 0,
            offset <= self.bytes().len(),
        ensures
            r.0 == edited_index(self.excerpts@, offset),
            r.0 < self.excerpts@.len(),
            r.1 == offset_in_buffer(self.excerpts@, r.0 as int, offset as int),
            self.excerpts@[r.0 as int].start() <= r.1 <= self.excerpts@[r.0 as int].end(),
    {
        let mut cursor = self.seek(&offset, Bias::Right);
        proof {
            lemma_seek_offset(self.excerpts@, offset, Bias::Right);
            lemma_edited_index(self.excerpts@, offset);
        }
        if cursor.index == self.excerpts.len() {
            cursor = self.cursor_at(self.excerpts.len() - 1);
        }
        let excerpt = &self.excerpts[cursor.index];
        (cursor.index, excerpt.buffer_start_offset() + (offset - cursor.start.len))
    }

    /// The edits of buffers that edits of the multibuffer come to, and the
    /// excerpts that they touch.
    pub fn convert_edits_to_buffer_edits(
        &self,
        edits: &Vec<(Range<usize>, String)>,
        original_indent_columns: &Vec<u32>,
    ) -> (r: (Vec<OfBuffer<BufferEdit>>, Vec<ExcerptId>))
        requires
            self.wf(),
            edits@.len() > 0 ==> self.excerpts@.len() > 0,
            forall|k: int|
                0 <= k < edits@.len() ==> (#[trigger] edits@[k]).0.start <= edits@[k].0.end
                    <= self.bytes().len(),
        ensures
            sorted_out(
                r.0@,
                edits_of_edits(self.excerpts@, edits@, original_indent_columns@),
            ),
            r.1@ == ids_of_edits(self.excerpts@, edits@),
    {
        let ghost es = self.excerpts@;
        let ghost columns = original_indent_columns@;
        let mut buffer_edits: Vec<OfBuffer<BufferEdit>> = Vec::new();
        let mut edited_excerpt_ids: Vec<ExcerptId> = Vec::new();
        let mut ix: usize = 0;
        assert(edits@.take(0) =~= Seq::<(Range<usize>, String)>::empty());
        while ix < edits.len()
            invariant
                self.wf(),
                es == self.excerpts@,
                columns == original_indent_columns@,
                ix <= edits@.len(),
                edits@.len() > 0 ==> es.len() > 0,
                forall|k: int|
                    0 <= k < edits@.len() ==> (#[trigger] edits@[k]).0.start
                        <= edits@[k].0.end <= self.bytes().len(),
                sorted_out(buffer_edits@, edits_of_edits(es, edits@.take(ix as int), columns)),
                edited_excerpt_ids@ == ids_of_edits(es, edits@.take(ix as int)),
            decreases edits@.len() - ix,
        {
            let (range, new_text) = &edits[ix];
            let original_indent_column: u32 = if ix < original_indent_columns.len() {
                original_indent_columns[ix]
            } else {
                0
            };
            let ghost before = edits_of_edits(es, edits@.take(ix as int), columns);
            let ghost ids_before = edited_excerpt_ids@;
            proof {
                assert(edits@.take(ix + 1).drop_last() =~= edits@.take(ix as int));
                assert(edits@.take(ix + 1).last() == edits@[ix as int]);
                lemma_edited_index_grows(es, range.start, range.end);
            }
            let (start_ix, buffer_start) = self.edited_position(range.start);
            let (end_ix, buffer_end) = self.edited_position(range.end);
            let start_excerpt = &self.excerpts[start_ix];
            let end_excerpt = &self.excerpts[end_ix];
            edited_excerpt_ids.push(start_excerpt.id);
            if start_ix == end_ix {
                sort_out(
                    &mut buffer_edits,
                    start_excerpt.buffer_id,
                    BufferEdit {
                        range: buffer_start..buffer_end,
                        new_text: new_text.clone(),
                        is_insertion: true,
                        original_indent_column,
                    },
                    Ghost(before),
                );
                proof {
                    let made = edits_of_edit(es, *range, *new_text, original_indent_column);
                    assert(before + made =~= before.push(made[0]));
                    assert(edited_excerpt_ids@ =~= ids_before + ids_of_edit(es, *range));
                }
            } else {
                edited_excerpt_ids.push(end_excerpt.id);
                let ghost first = (
                    start_excerpt.buffer_id,
                    buffer_edit(
                        buffer_start as int,
                        start_excerpt.end(),
                        *new_text,
                        true,
                        original_indent_column,
                    ),
                );
                let ghost last = (
                    end_excerpt.buffer_id,
                    buffer_edit(
                        end_excerpt.start(),
                        buffer_end as int,
                        *new_text,
                        false,
                        original_indent_column,
                    ),
                );
                sort_out(
                    &mut buffer_edits,
                    start_excerpt.buffer_id,
                    BufferEdit {
                        range: buffer_start..start_excerpt.buffer_end_offset(),
                        new_text: new_text.clone(),
                        is_insertion: true,
                        original_indent_column,
                    },
                    Ghost(before),
                );
                sort_out(
                    &mut buffer_edits,
                    end_excerpt.buffer_id,
                    BufferEdit {
                        range: end_excerpt.buffer_start_offset()..buffer_end,
                        new_text: new_text.clone(),
                        is_insertion: false,
                        original_indent_column,
                    },
                    Ghost(before.push(first)),
                );
                let ghost both = before.push(first).push(last);
                let ghost ids_both = edited_excerpt_ids@;
                let mut m: usize = start_ix + 1;
                assert(both + covered_edits(
                    es,
                    start_ix + 1,
                    m as int,
                    *new_text,
                    original_indent_column,
                ) =~= both);
                assert(ids_both + Seq::new(0, |x: int| es[start_ix + 1 + x].id) =~= ids_both);
                while m < end_ix
                    invariant
                        self.wf(),
                        es == self.excerpts@,
                        start_ix < m <= end_ix < es.len(),
                        sorted_out(
                            buffer_edits@,
                            both + covered_edits(
                                es,
                                start_ix + 1,
                                m as int,
                                *new_text,
                                original_indent_column,
                            ),
                        ),
                        edited_excerpt_ids@ == ids_both + Seq::new(
                            (m - start_ix - 1) as nat,
                            |x: int| es[start_ix + 1 + x].id,
                        ),
                    decreases end_ix - m,
                {
                    let excerpt = &self.excerpts[m];
                    let ghost so_far = both + covered_edits(
                        es,
                        start_ix + 1,
                        m as int,
                        *new_text,
                        original_indent_column,
                    );
                    sort_out(
                        &mut buffer_edits,
                        excerpt.buffer_id,
                        BufferEdit {
                            range: excerpt.buffer_start_offset()..excerpt.buffer_end_offset(),
                            new_text: new_text.clone(),
                            is_insertion: false,
                            original_indent_column,
                        },
                        Ghost(so_far),
                    );
                    edited_excerpt_ids.push(excerpt.id);
                    proof {
                        let grown = covered_edits(
                            es,
                            start_ix + 1,
                            m + 1,
                            *new_text,
                            original_indent_column,
                        );
                        assert(both + grown =~= so_far.push(grown.last()));
                        assert(edited_excerpt_ids@ =~= ids_both + Seq::new(
                            (m - start_ix) as nat,
                            |x: int| es[start_ix + 1 + x].id,
                        ));
                    }
                    m = m + 1;
                }
                proof {
                    assert(both + covered_edits(
                        es,
                        start_ix + 1,
                        end_ix as int,
                        *new_text,
                        original_indent_column,
                    ) =~= before + edits_of_edit(es, *range, *new_text, original_indent_column));
                    assert(edited_excerpt_ids@ =~= ids_before + ids_of_edit(es, *range));
                }
            }
            ix = ix + 1;
        }
        assert(edits@.take(edits@.len() as int) =~= edits@);
        (buffer_edits, edited_excerpt_ids)
    }
}

/// What stands in the buffer that an edit of it replaces.
pub open spec fn replaced_in(buffer: Arc<BufferSnapshot>, edit: BufferEdit) -> Seq<u8> {
    buffer.bytes().subrange(edit.range.start as int, edit.range.end as int)
}

/// An edit of the multibuffer asks the buffers to replace just what the multibuffer
/// shows in its range: a part of one excerpt; or the end of one, all of those between,
/// and the start of another, with the line breaks between them.
#[verifier::rlimit(50)]
pub proof fn lemma_edit_replaces_what_is_shown(
    snapshot: MultiBufferSnapshot,
    range: Range<usize>,
    new_text: String,
    column: u32,
)
    requires
        snapshot.wf(),
        snapshot.excerpts@.len() > 0,
        range.start <= range.end <= snapshot.bytes().len(),
    ensures
        ({
            let es = snapshot.excerpts@;
            let i = edited_index(es, range.start);
            let j = edited_index(es, range.end);
            let made = edits_of_edit(es, range, new_text, column);
            let shown = snapshot.bytes().subrange(range.start as int, range.end as int);
            &&& 0 <= i <= j < es.len()
            &&& if i == j {
                &&& made.len() == 1
                &&& shown == replaced_in(es[i].buffer, made[0].1)
            } else {
                &&& made.len() == j - i + 1
                &&& shown == replaced_in(es[i].buffer, made[0].1).push(NEWLINE) + excerpts_text(
                    es.subrange(i + 1, j),
                ) + replaced_in(es[j].buffer, made[1].1)
                &&& forall|m: int|
                    i < m < j ==> replaced_in(es[m].buffer, made[m - i + 1].1)
                        == #[trigger] es[m].bytes()
            }
        }),
{
    let es = snapshot.excerpts@;
    let t = snapshot.bytes();
    let i = edited_index(es, range.start);
    let j = edited_index(es, range.end);
    let a = range.start as int;
    let b = range.end as int;
    lemma_edited_index(es, range.start);
    lemma_edited_index(es, range.end);
    lemma_edited_index_grows(es, range.start, range.end);
    let made = edits_of_edit(es, range, new_text, column);
    let from = a - excerpt_start(es, i);
    let to = b - excerpt_start(es, j);
    if i == j {
        lemma_part_shown(es, i, from, to);
    } else {
        lemma_shown_across(es, i, j, from, to);
        lemma_covered_edits(es, i + 1, j, new_text, column, 0);
        assert forall|m: int| i < m < j implies replaced_in(es[m].buffer, made[m - i + 1].1)
            == #[trigger] es[m].bytes() by {
            lemma_covered_edits(es, i + 1, j, new_text, column, m - i - 1);
            assert(made[m - i + 1] == covered_edits(es, i + 1, j, new_text, column)[m - i - 1]);
        }
    }
}

/// What stands between two excerpts' parts.
proof fn lemma_shown_across(es: Seq<Excerpt>, i: int, j: int, from: int, to: int)
    requires
        excerpts_wf(es),
        0 <= i < j < es.len(),
        0 <= from <= es[i].bytes().len(),
        0 <= to <= es[j].bytes().len(),
    ensures
        excerpts_text(es).subrange(excerpt_start(es, i) + from, excerpt_start(es, j) + to)
            == es[i].buffer.bytes().subrange(es[i].start() + from, es[i].end()).push(NEWLINE)
            + excerpts_text(es.subrange(i + 1, j)) + es[j].buffer.bytes().subrange(
            es[j].start(),
            es[j].start() + to,
        ),
        forall|m: int|
            i < m < j ==> 0 <= (#[trigger] es[m]).start() <= es[m].end()
                <= es[m].buffer.bytes().len() <= MAX_TEXT_LEN,
{
    let t = excerpts_text(es);
    let a = excerpt_start(es, i) + from;
    let b = excerpt_start(es, j) + to;
    let s = excerpt_start(es, i + 1);
    let e = excerpt_start(es, j);
    lemma_part_shown(es, j, 0, to);
    lemma_end_shown(es, i, from);
    lemma_excerpt_start_grows(es, i + 1, j);
    lemma_excerpts_between(es, i + 1, j);
    assert(t.subrange(a, b) =~= t.subrange(a, s) + t.subrange(s, e) + t.subrange(e, b));
}

/// Once the buffer has taken an edit that falls into one excerpt, and the excerpt has
/// followed it, the multibuffer shows the new text in place of the range, and nothing
/// else changes.
#[verifier::rlimit(60)]
pub proof fn lemma_edit_shows_through(
    snapshot: MultiBufferSnapshot,
    range: Range<usize>,
    new_text: Seq<u8>,
    e: Excerpt,
)
    requires
        snapshot.wf(),
        snapshot.excerpts@.len() > 0,
        range.start <= range.end <= snapshot.bytes().len(),
        edited_index(snapshot.excerpts@, range.start) == edited_index(
            snapshot.excerpts@,
            range.end,
        ),
        ({
            let es = snapshot.excerpts@;
            let i = edited_index(es, range.start);
            let start = excerpt_start(es, i);
            &&& e.has_trailing_newline == es[i].has_trailing_newline
            &&& e.bytes() == es[i].bytes().take(range.start - start) + new_text
                + es[i].bytes().skip(range.end - start)
        }),
    ensures
        excerpts_text(
            snapshot.excerpts@.update(edited_index(snapshot.excerpts@, range.start), e),
        ) == snapshot.bytes().take(range.start as int) + new_text + snapshot.bytes().skip(
            range.end as int,
        ),
{
    let es = snapshot.excerpts@;
    let t = snapshot.bytes();
    let i = edited_index(es, range.start);
    lemma_edited_index(es, range.start);
    lemma_edited_index(es, range.end);
    let start = excerpt_start(es, i);
    let new_es = es.update(i, e);
    lemma_excerpts_text_split(es, i + 1);
    lemma_excerpts_text_step(es, i);
    lemma_excerpts_text_split(new_es, i + 1);
    lemma_excerpts_text_step(new_es, i);
    assert(new_es.take(i) =~= es.take(i));
    assert(new_es.skip(i + 1) =~= es.skip(i + 1));
    let before = excerpts_text(es.take(i));
    let after = excerpts_text(es.skip(i + 1));
    let newline = trailing_newline(e.has_trailing_newline);
    let bytes = es[i].bytes();
    assert(t =~= before + bytes + newline + after);
    assert(t.take(range.start as int) =~= before + bytes.take(range.start - start));
    assert(t.skip(range.end as int) =~= bytes.skip(range.end - start) + newline + after);
    assert(excerpts_text(new_es) =~= before + e.bytes() + newline + after);
}

/// A part of what an excerpt shows, in the text and in the buffer.
proof fn lemma_part_shown(es: Seq<Excerpt>, i: int, from: int, to: int)
    requires
        excerpts_wf(es),
        0 <= i < es.len(),
        0 <= from <= to <= es[i].bytes().len(),
    ensures
        excerpt_start(es, i) + to <= excerpts_text(es).len(),
        excerpts_text(es).subrange(excerpt_start(es, i) + from, excerpt_start(es, i) + to)
            == es[i].buffer.bytes().subrange(es[i].start() + from, es[i].start() + to),
        0 <= es[i].start() + from <= es[i].start() + to <= es[i].buffer.bytes().len(),
{
    assert(es[i].wf());
    lemma_text_within(es, i, from, to);
    assert(es[i].text().subrange(from, to) =~= es[i].buffer.bytes().subrange(
        es[i].start() + from,
        es[i].start() + to,
    ));
}

/// The end of what an excerpt shows, with the line break behind it.
proof fn lemma_end_shown(es: Seq<Excerpt>, i: int, from: int)
    requires
        excerpts_wf(es),
        0 <= i < es.len() - 1,
        0 <= from <= es[i].bytes().len(),
    ensures
        excerpts_text(es).subrange(excerpt_start(es, i) + from, excerpt_start(es, i + 1))
            == es[i].buffer.bytes().subrange(es[i].start() + from, es[i].end()).push(NEWLINE),
        excerpt_start(es, i) + from <= excerpt_start(es, i + 1),
{
    assert(es[i].wf());
    assert(es[i].has_trailing_newline);
    let n = es[i].bytes().len() as int;
    lemma_text_within(es, i, from, n + 1);
    lemma_excerpts_text_step(es, i);
    assert(es[i].text().subrange(from, n + 1) =~= es[i].buffer.bytes().subrange(
        es[i].start() + from,
        es[i].end(),
    ).push(NEWLINE));
}

/// The text of excerpts that follow one another.
proof fn lemma_excerpts_between(es: Seq<Excerpt>, from: int, to: int)
    requires
        0 <= from <= to <= es.len(),
    ensures
        excerpts_text(es).subrange(excerpt_start(es, from), excerpt_start(es, to))
            == excerpts_text(es.subrange(from, to)),
{
    lemma_excerpts_text_split(es, from);
    lemma_excerpts_text_split(es, to);
    lemma_excerpt_start_grows(es, from, to);
    lemma_excerpts_text_concat(es.take(from), es.subrange(from, to));
    assert(es.take(from) + es.subrange(from, to) =~= es.take(to));
    let t = excerpts_text(es);
    assert(t.subrange(excerpt_start(es, from), excerpt_start(es, to)) =~= t.take(
        excerpt_start(es, to),
    ).skip(excerpt_start(es, from)));
    assert((excerpts_text(es.take(from)) + excerpts_text(es.subrange(from, to))).skip(
        excerpt_start(es, from),
    ) =~= excerpts_text(es.subrange(from, to)));
}

/// The edit that deletes what one of the excerpts between shows.
pub proof fn lemma_covered_edits(
    es: Seq<Excerpt>,
    from: int,
    to: int,
    new_text: String,
    column: u32,
    k: int,
)
    requires
        from <= to,
    ensures
        covered_edits(es, from, to, new_text, column).len() == to - from,
        0 <= k < to - from ==> covered_edits(es, from, to, new_text, column)[k] == (
            es[from + k].buffer_id,
            buffer_edit(es[from + k].start(), es[from + k].end(), new_text, false, column),
        ),
    decreases to - from,
{
    if from < to {
        lemma_covered_edits(es, from, to - 1, new_text, column, k);
    }
}

} // verus!
