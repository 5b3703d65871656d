//! What holds of excerpts that grow.

use std::ops::Range;
use vstd::prelude::*;

use crate::buffer::{row_end, row_start, BufferSnapshot, TextAnchor};
use crate::excerpt::{excerpt_start, Excerpt, ExcerptId, ExpandExcerptDirection};
use crate::multi_buffer::expand::{expanded, replace_edit, replace_edits};
use crate::multi_buffer::named::{lemma_expanded_covers, lemma_named_excerpts};
use crate::multi_buffer::{patched, Edit, Event, MultiBuffer};
use crate::snapshot::MultiBufferSnapshot;
use crate::text::{lemma_positions_grow, lemma_summary_sound, point_at, NEWLINE};

verus! {

/// Whether an excerpt shows whole rows of its buffer, from one to another.
pub open spec fn shows_rows(e: Excerpt, first_row: int, last_row: int) -> bool {
    let t = e.buffer.bytes();
    &&& point_at(t, e.start()).row == first_row
    &&& point_at(t, e.start()).column == 0
    &&& point_at(t, e.end()).row == last_row
    &&& e.end() == t.len() || t[e.end()] == NEWLINE
}

/// An excerpt that grows shows whole rows: `up` rows more at its start and `down` rows
/// more at its end, as far as the buffer has any.
pub proof fn lemma_expanded_rows(e: Excerpt, up: int, down: int)
    requires
        e.wf(),
        up >= 0,
        down >= 0,
    ensures
        ({
            let t = e.buffer.bytes();
            let max_row = point_at(t, t.len() as int).row;
            let start_row = point_at(t, e.start()).row;
            let end_row = point_at(t, e.end()).row;
            shows_rows(
                expanded(e, up, down),
                if start_row <= up {
                    0
                } else {
                    start_row - up
                },
                if end_row + down >= max_row {
                    max_row
                } else {
                    end_row + down
                },
            )
        }),
{
    let b: &BufferSnapshot = &e.buffer;
    let t = b.bytes();
    let max_row = point_at(t, t.len() as int).row;
    let start_row = e.start_pos().row;
    let end_row = point_at(t, e.end()).row;
    lemma_expanded_covers(e, up, down);
    lemma_summary_sound(t.take(e.start()));
    lemma_summary_sound(t.take(e.end()));
    lemma_summary_sound(t.take(t.len() as int));
    if e.start() < t.len() {
        lemma_positions_grow(t, e.start(), t.len() as int);
    }
    if e.end() < t.len() {
        lemma_positions_grow(t, e.end(), t.len() as int);
    }
    let first_row = if start_row >= up {
        start_row - up
    } else {
        0
    };
    let last_row = if end_row + down <= max_row {
        end_row + down
    } else {
        max_row
    };
    b.lemma_row(first_row as u32);
    b.lemma_row(last_row as u32);
    let start = row_start(t, first_row as u32);
    let end = row_end(t, last_row as u32);
    assert(expanded(e, up, down).start() == start);
    assert(expanded(e, up, down).end() == end);
}

impl MultiBuffer {
    /// Letting excerpts grow lets just those grow that are named, in the directions asked
    /// for, and leaves all others as they were.
    #[verifier::rlimit(50)]
    pub proof fn lemma_grown(
        &self,
        before: &MultiBuffer,
        ids: Seq<ExcerptId>,
        line_count: u32,
        direction: ExpandExcerptDirection,
        i: int,
    )
        requires
            before.wf(),
            line_count > 0,
            forall|k: int| 0 <= k < ids.len() ==> before.snapshot.has_excerpt(#[trigger] ids[k]),
            self.has_expanded(before, ids, line_count, direction),
            0 <= i < before.snapshot.excerpts@.len(),
        ensures
            ({
                let old = before.snapshot.excerpts@[i];
                let new = self.snapshot.excerpts@[i];
                let t = old.buffer.bytes();
                let max_row = point_at(t, t.len() as int).row;
                let start_row = point_at(t, old.start()).row;
                let end_row = point_at(t, old.end()).row;
                &&& self.snapshot.excerpts@.len() == before.snapshot.excerpts@.len()
                &&& !ids.contains(old.id) ==> new == old
                &&& ids.contains(old.id) ==> {
                    &&& new.id == old.id
                    &&& new.locator == old.locator
                    &&& new.buffer == old.buffer
                    &&& new.buffer_id == old.buffer_id
                    &&& new.range.primary == old.range.primary
                    &&& new.has_trailing_newline == old.has_trailing_newline
                    &&& shows_rows(
                        new,
                        if direction is Down {
                            start_row
                        } else if start_row <= line_count {
                            0
                        } else {
                            start_row - line_count
                        },
                        if direction is Up {
                            end_row
                        } else if end_row + line_count >= max_row {
                            max_row
                        } else {
                            end_row + line_count
                        },
                    )
                }
            }),
    {
        let e = before.snapshot.excerpts@[i];
        lemma_named_excerpts(before.snapshot, ids);
        assert(e.wf());
        let up = if direction is Down {
            0
        } else {
            line_count as int
        };
        let down = if direction is Up {
            0
        } else {
            line_count as int
        };
        lemma_expanded_rows(e, up, down);
        let t = e.buffer.bytes();
        lemma_summary_sound(t.take(e.start()));
        if e.end() < t.len() {
            lemma_positions_grow(t, e.end(), t.len() as int);
        }
    }

    /// Growing by no row changes nothing. Growing by more is announced with the identifiers
    /// that were named, and changes nothing of the buffers or of what identifiers stand for.
    pub proof fn lemma_growth_announced(
        &self,
        before: &MultiBuffer,
        ids: Seq<ExcerptId>,
        line_count: u32,
        direction: ExpandExcerptDirection,
    )
        requires
            self.has_expanded(before, ids, line_count, direction),
        ensures
            line_count == 0 ==> *self == *before,
            line_count > 0 ==> {
                &&& self.events@.len() == before.events@.len() + 2
                &&& self.events@.take(before.events@.len() as int) == before.events@
                &&& self.events@[before.events@.len() as int] is Edited
                &&& self.events@.last() matches Event::ExcerptsExpanded { ids: grown }
                    && grown@ == ids
                &&& self.buffers == before.buffers
                &&& self.snapshot.excerpt_ids@ == before.snapshot.excerpt_ids@
                &&& patched(
                    before.snapshot.bytes(),
                    self.snapshot.bytes(),
                    self.published@.last()@,
                )
            },
    {
    }

    /// Subscribers are told of each excerpt that grows, and of nothing else: what it showed
    /// is replaced by what it shows.
    #[verifier::rlimit(50)]
    pub proof fn lemma_growth_told(
        &self,
        before: &MultiBuffer,
        ids: Seq<ExcerptId>,
        line_count: u32,
        direction: ExpandExcerptDirection,
        edit: Edit,
    )
        requires
            before.wf(),
            line_count > 0,
            forall|k: int| 0 <= k < ids.len() ==> before.snapshot.has_excerpt(#[trigger] ids[k]),
            self.has_expanded(before, ids, line_count, direction),
        ensures
            ({
                let old = before.snapshot.excerpts@;
                let new = self.snapshot.excerpts@;
                self.published@.last()@.contains(edit) <==> exists|i: int|
                    0 <= i < old.len() && ids.contains((#[trigger] old[i]).id) && edit == (Edit {
                        old: Range {
                            start: excerpt_start(old, i) as usize,
                            end: (excerpt_start(old, i) + old[i].bytes().len()) as usize,
                        },
                        new: Range {
                            start: excerpt_start(new, i) as usize,
                            end: (excerpt_start(new, i) + new[i].bytes().len()) as usize,
                        },
                    })
            }),
    {
        let old = before.snapshot.excerpts@;
        let new = self.snapshot.excerpts@;
        let indexes = before.snapshot.named_indexes(ids);
        let edits = replace_edits(old, new, indexes);
        lemma_named_excerpts(before.snapshot, ids);
        assert(self.published@.last()@ == edits);
        if edits.contains(edit) {
            let k = choose|k: int| 0 <= k < edits.len() && edits[k] == edit;
            assert(edits[k] == replace_edit(old, new, indexes[k]));
            assert(indexes.contains(indexes[k]));
            assert(ids.contains(old[indexes[k]].id));
        }
        if exists|i: int|
            0 <= i < old.len() && ids.contains((#[trigger] old[i]).id) && edit == replace_edit(
                old,
                new,
                i,
            ) {
            let i = choose|i: int|
                0 <= i < old.len() && ids.contains((#[trigger] old[i]).id) && edit == replace_edit(
                    old,
                    new,
                    i,
                );
            assert(indexes.contains(i));
            let k = choose|k: int| 0 <= k < indexes.len() && indexes[k] == i;
            assert(edits[k] == edit);
        }
    }
}

impl MultiBufferSnapshot {
    /// An excerpt that is resized shows the stretch asked for, and all others stay as they
    /// were.
    pub proof fn lemma_resized(&self, id: ExcerptId, range: Range<TextAnchor>, i: int, j: int)
        requires
            self.wf(),
            0 <= i < self.excerpts@.len(),
            self.excerpts@[i].id == id,
            0 <= j < self.excerpts@.len(),
        ensures
            ({
                let r = self.resized(id, range);
                &&& r.len() == self.excerpts@.len()
                &&& i != j ==> r[j] == self.excerpts@[j]
                &&& r[i].range.context == range
                &&& r[i].id == id
                &&& r[i].locator == self.excerpts@[i].locator
                &&& r[i].buffer == self.excerpts@[i].buffer
                &&& r[i].range.primary == self.excerpts@[i].range.primary
            }),
    {
        self.lemma_excerpt_found(id, i);
    }
}

} // verus!
