//! What holds of one position, however it is counted.

use std::ops::Range;
use vstd::prelude::*;

use crate::anchor::Anchor;
use crate::buffer::TextAnchor;
use crate::excerpt::{excerpt_start, lemma_excerpt_position, lemma_excerpts_text_step, Excerpt};
use crate::position::{ToOffset, ToOffsetUtf16, ToPoint, ToPointUtf16};
use crate::snapshot::annotations::{anchor_in, item_in, OutlineItem};
use crate::snapshot::convert::{
    lemma_boundary_within, lemma_summary_before, lemma_summary_within, pos_in_buffer, to_point,
    to_point_utf16,
};
use crate::snapshot::indents::IndentSize;
use crate::snapshot::round_trips::{
    lemma_offset_utf16_has_offset, lemma_point_has_offset, lemma_point_utf16_has_offset,
};
use crate::snapshot::rows::MultiBufferRows;
use crate::snapshot::{lemma_excerpt_starts_row, lemma_seek_point, seek_index, MultiBufferSnapshot};
use crate::text::{
    is_boundary, lemma_find_point, lemma_positions_grow, lemma_summary_sound, offset_utf16_at,
    point_at, point_utf16_at, Bias, OffsetUtf16,
};

verus! {

impl MultiBufferSnapshot {
    /// An offset at which a character starts comes back from its row and column, from its
    /// row and UTF-16 column, and from its UTF-16 offset.
    pub proof fn lemma_positions_come_back(&self, o: usize)
        requires
            self.wf(),
            o <= self.bytes().len(),
            is_boundary(self.bytes(), o as int),
        ensures
            to_point(o.point(*self)).offset(*self) == o,
            to_point_utf16(o.point_utf16(*self)).offset(*self) == o,
            OffsetUtf16(o.utf16_offset(*self) as usize).offset(*self) == o,
    {
        lemma_point_has_offset(*self, o as int);
        lemma_point_utf16_has_offset(*self, o as int);
        lemma_offset_utf16_has_offset(*self, o as int);
    }

    /// An offset behind the end of the text has the position of the end.
    pub proof fn lemma_positions_past_end(&self, o: usize)
        requires
            self.wf(),
            o >= self.bytes().len(),
        ensures
            o.point(*self) == point_at(self.bytes(), self.bytes().len() as int),
            o.point_utf16(*self) == point_utf16_at(self.bytes(), self.bytes().len() as int),
            o.utf16_offset(*self) == offset_utf16_at(self.bytes(), self.bytes().len() as int),
    {
    }

    /// An anchor has the row, the columns and the UTF-16 offset of its offset.
    pub proof fn lemma_anchor_positions(&self, anchor: Anchor, o: usize)
        requires
            self.wf(),
            o == anchor.offset(*self),
        ensures
            o <= self.bytes().len(),
            anchor.point(*self) == o.point(*self),
            anchor.utf16_offset(*self) == o.utf16_offset(*self),
    {
        self.lemma_anchor_offset(anchor);
    }

    /// The row and column of an offset at which a character starts have the row and the
    /// UTF-16 column of the offset.
    #[verifier::rlimit(50)]
    pub proof fn lemma_point_to_utf16(&self, o: usize)
        requires
            self.wf(),
            o <= self.bytes().len(),
            is_boundary(self.bytes(), o as int),
        ensures
            to_point(o.point(*self)).point_utf16(*self) == o.point_utf16(*self),
    {
        let es = self.excerpts@;
        let t = self.bytes();
        let pos = point_at(t, o as int);
        let point = to_point(pos);
        lemma_summary_sound(t.take(o as int));
        let i = seek_index(es, point, Bias::Right, 0);
        lemma_seek_point(es, point, Bias::Right);
        lemma_summary_before(es, i);
        let start = excerpt_start(es, i);
        if o < start {
            lemma_positions_grow(t, o as int, start);
        }
        if i < es.len() {
            lemma_summary_before(es, i + 1);
            let next = excerpt_start(es, i + 1);
            if next < o {
                lemma_positions_grow(t, next, o as int);
            }
            lemma_excerpts_text_step(es, i);
            let e = es[i];
            let k = o - start;
            assert(e.wf());
            assert(k <= e.bytes().len());
            lemma_summary_within(es, i, k);
            lemma_excerpt_starts_row(es, i);
            lemma_boundary_within(es, i, k);
            let there = e.start() + k;
            assert(pos_in_buffer(es, i, point@) == point_at(e.buffer.bytes(), there));
            lemma_summary_sound(e.buffer.bytes().take(there));
            lemma_summary_sound(e.buffer.bytes().take(e.start()));
            lemma_find_point(e.buffer.bytes(), to_point(pos_in_buffer(es, i, point@)), there);
        } else {
            assert(es.take(es.len() as int) =~= es);
            assert(t.take(t.len() as int) =~= t);
            if o < t.len() {
                lemma_positions_grow(t, o as int, t.len() as int);
            }
        }
    }

    /// Rows that go on from the row of an offset in an excerpt go on with the row that the
    /// buffer has there, up to the last row that the excerpt shows.
    pub proof fn lemma_rows_go_on(&self, rows: &MultiBufferRows<'_>, i: int, k: int)
        requires
            self.wf(),
            *rows.snapshot == *self,
            0 <= i < self.excerpts@.len(),
            0 <= k <= self.excerpts@[i].bytes().len(),
            rows.goes_on_from(
                point_at(self.bytes(), excerpt_start(self.excerpts@, i) + k).row as u32,
            ),
        ensures
            ({
                let e = self.excerpts@[i];
                &&& rows.index == i
                &&& rows.buffer_row_range.start == point_at(e.buffer.bytes(), e.start() + k).row
                &&& rows.buffer_row_range.end == point_at(e.buffer.bytes(), e.end()).row + 1
            }),
    {
        let e = self.excerpts@[i];
        assert(e.wf());
        assert(e.buffer.wf());
        lemma_excerpt_position(e, 0);
        lemma_summary_within(self.excerpts@, i, k);
        self.lemma_rows_shown(i, k);
        lemma_summary_sound(e.buffer.bytes().take(e.start() + k));
        lemma_summary_sound(self.bytes().take(excerpt_start(self.excerpts@, i) + k));
    }
}

/// A line is indented by as many spaces, or as many tabs, as its indent is long.
pub proof fn lemma_indent_chars(size: IndentSize, k: int)
    requires
        0 <= k < size.len,
    ensures
        size.spec_chars().len() == size.len,
        size.kind is Space ==> size.spec_chars()[k] == ' ',
        size.kind is Tab ==> size.spec_chars()[k] == '\t',
{
}

/// An entry of an outline is the same entry in the multibuffer, each of its ranges held by
/// anchors in the excerpt.
pub proof fn lemma_item_in<X>(es: Seq<Excerpt>, i: int, item: OutlineItem<TextAnchor, X>)
    ensures
        ({
            let r = item_in(es, i, item);
            &&& r.depth == item.depth
            &&& r.content == item.content
            &&& r.range.start == anchor_in(es, i, item.range.start)
            &&& r.range.end == anchor_in(es, i, item.range.end)
            &&& r.body_range is Some <==> item.body_range is Some
            &&& item.body_range matches Some(range) ==> r.body_range == Some(
                Range { start: anchor_in(es, i, range.start), end: anchor_in(es, i, range.end) },
            )
            &&& r.annotation_range is Some <==> item.annotation_range is Some
            &&& item.annotation_range matches Some(range) ==> r.annotation_range == Some(
                Range { start: anchor_in(es, i, range.start), end: anchor_in(es, i, range.end) },
            )
        }),
{
}

} // verus!
