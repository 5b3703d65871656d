//! A multibuffer at one point in time.

use vstd::prelude::*;

use crate::buffer::{BufferId, BufferSnapshot, TextAnchor};
use crate::excerpt::{
    excerpt_start, excerpts_text, lemma_excerpts_text_split, lemma_excerpts_text_step, Excerpt,
    ExcerptId, ExcerptRange,
};
use crate::locator::{digits_before, ends_nonzero, Locator};
use crate::text::{
    lemma_summary_sound, summarize, Bias, Landmark, OffsetUtf16, Point, PointUtf16, TextSummary,
    MAX_TEXT_LEN, NEWLINE,
};

pub mod anchor_laws;
pub mod anchors;
pub mod boundaries;
pub mod annotations;
pub mod bytes;
pub mod chunks;
pub mod clip;
pub mod clip_laws;
pub mod convert;
pub mod excerpt_view;
pub mod ids;
pub mod indent_laws;
pub mod indents;
pub mod language;
pub mod line_laws;
pub mod lines;
pub mod pieces;
pub mod position_laws;
pub mod ranges;
pub mod round_trips;
pub mod rows;
pub mod sources;
pub mod summaries;
pub mod view_laws;
pub mod words;

verus! {

/// Which place belongs to an excerpt identifier.
#[derive(Debug)]
pub struct ExcerptIdMapping {
    pub id: ExcerptId,
    pub locator: Locator,
}

/// The contents of a multibuffer at one point in time.
#[derive(Debug)]
pub struct MultiBufferSnapshot {
    /// Whether the multibuffer shows a single buffer, and all of it.
    pub singleton: bool,
    /// The excerpts, in the order of their locators.
    pub excerpts: Vec<Excerpt>,
    /// The places of all excerpts that there ever were, in the order of their
    /// identifiers.
    pub excerpt_ids: Vec<ExcerptIdMapping>,
    pub trailing_excerpt_update_count: usize,
    pub non_text_state_update_count: usize,
    pub edit_count: usize,
    pub is_dirty: bool,
    pub has_deleted_file: bool,
    pub has_conflict: bool,
    pub show_headers: bool,
}

/// Whether a locator can belong to an excerpt.
pub open spec fn valid_locator(locator: Seq<u64>) -> bool {
    &&& digits_before(seq![0u64], locator)
    &&& digits_before(locator, seq![u64::MAX])
    &&& ends_nonzero(locator)
}

/// Whether a sequence of excerpts can stand in a multibuffer: each is followed
/// by a line break, save the last, and their locators grow.
pub open spec fn excerpts_wf(es: Seq<Excerpt>) -> bool {
    &&& forall|i: int| 0 <= i < es.len() ==> (#[trigger] es[i]).wf()
    &&& forall|i: int|
        0 <= i < es.len() ==> (#[trigger] es[i]).has_trailing_newline == (i < es.len() - 1)
    &&& forall|i: int| 0 <= i < es.len() ==> valid_locator((#[trigger] es[i]).locator@)
    &&& forall|i: int, j: int|
        0 <= i < j < es.len() ==> digits_before(
            (#[trigger] es[i]).locator@,
            (#[trigger] es[j]).locator@,
        )
    &&& excerpts_text(es).len() <= MAX_TEXT_LEN
}

/// Whether the `k`-th entry says where the excerpt `e` stands.
pub open spec fn maps(ids: Seq<ExcerptIdMapping>, k: int, e: Excerpt) -> bool {
    0 <= k < ids.len() && ids[k].id == e.id && ids[k].locator@ == e.locator@
}

/// Whether the entries say where the excerpt `e` stands.
pub open spec fn is_mapped(ids: Seq<ExcerptIdMapping>, e: Excerpt) -> bool {
    exists|k: int| maps(ids, k, e)
}

/// Whether identifiers grow and each has a place.
pub open spec fn excerpt_ids_wf(ids: Seq<ExcerptIdMapping>) -> bool {
    &&& forall|i: int|
        0 <= i < ids.len() ==> 0 < (#[trigger] ids[i]).id.0 && valid_locator(ids[i].locator@)
    &&& forall|i: int|
        0 <= i < ids.len() ==> (#[trigger] ids[i]).id.0 < usize::MAX
    &&& forall|i: int, j: int|
        0 <= i < j < ids.len() ==> (#[trigger] ids[i]).id.0 < (#[trigger] ids[j]).id.0
}

/// The first excerpt from `from` on at which a search for `target` ends: the
/// target lies before its end, or, where the search leans to the left, at its
/// end.
pub open spec fn seek_index<T: Landmark>(
    es: Seq<Excerpt>,
    target: T,
    bias: Bias,
    from: int,
) -> int
    decreases es.len() - from,
{
    if from >= es.len() {
        es.len() as int
    } else if seek_ends(es, target, bias, from) {
        from
    } else {
        seek_index(es, target, bias, from + 1)
    }
}

/// Whether a search for `target` ends at the `i`-th excerpt.
pub open spec fn seek_ends<T: Landmark>(
    es: Seq<Excerpt>,
    target: T,
    bias: Bias,
    i: int,
) -> bool {
    let end = summarize(excerpts_text(es.take(i + 1)));
    target.precedes(end) || (bias is Left && target.coincides(end))
}

pub proof fn lemma_seek<T: Landmark>(es: Seq<Excerpt>, target: T, bias: Bias, from: int)
    requires
        0 <= from <= es.len(),
    ensures
        from <= seek_index(es, target, bias, from) <= es.len(),
        seek_index(es, target, bias, from) < es.len() ==> seek_ends(
            es,
            target,
            bias,
            seek_index(es, target, bias, from),
        ),
        forall|i: int|
            from <= i < seek_index(es, target, bias, from) ==> !#[trigger] seek_ends(
                es,
                target,
                bias,
                i,
            ),
    decreases es.len() - from,
{
    if from < es.len() && !seek_ends(es, target, bias, from) {
        lemma_seek(es, target, bias, from + 1);
    }
}

/// Where a search for an offset ends.
pub proof fn lemma_seek_offset(es: Seq<Excerpt>, offset: usize, bias: Bias)
    ensures
        ({
            let i = seek_index(es, offset, bias, 0);
            &&& 0 <= i <= es.len()
            &&& i < es.len() ==> offset <= excerpt_start(es, i + 1)
            &&& i < es.len() && bias is Right ==> offset < excerpt_start(es, i + 1)
            &&& i == es.len() ==> offset >= excerpts_text(es).len()
            &&& i == es.len() && bias is Left ==> offset > excerpts_text(es).len() || es.len()
                == 0
            &&& i > 0 ==> offset >= excerpt_start(es, i)
            &&& i > 0 && bias is Left ==> offset > excerpt_start(es, i)
            &&& excerpt_start(es, 0) == 0
        }),
{
    let i = seek_index(es, offset, bias, 0);
    lemma_seek(es, offset, bias, 0);
    if i < es.len() {
        lemma_summary_sound(excerpts_text(es.take(i + 1)));
    }
    if i > 0 {
        assert(!seek_ends(es, offset, bias, i - 1));
        lemma_summary_sound(excerpts_text(es.take(i)));
    }
    assert(es.take(es.len() as int) =~= es);
    assert(es.take(0) =~= Seq::<Excerpt>::empty());
}

/// Where a search for a row and a column ends.
pub proof fn lemma_seek_point(es: Seq<Excerpt>, point: Point, bias: Bias)
    ensures
        ({
            let i = seek_index(es, point, bias, 0);
            &&& 0 <= i <= es.len()
            &&& i < es.len() ==> point@.not_after(
                summarize(excerpts_text(es.take(i + 1))).lines,
            )
            &&& i < es.len() && bias is Right ==> point@.before(
                summarize(excerpts_text(es.take(i + 1))).lines,
            )
            &&& summarize(excerpts_text(es.take(i))).lines.not_after(point@)
        }),
{
    reveal(summarize);
    let i = seek_index(es, point, bias, 0);
    lemma_seek(es, point, bias, 0);
    if i > 0 {
        assert(!seek_ends(es, point, bias, i - 1));
    }
    assert(es.take(0) =~= Seq::<Excerpt>::empty());
}

/// Where a search for a row and a UTF-16 column ends.
pub proof fn lemma_seek_point_utf16(es: Seq<Excerpt>, point: PointUtf16, bias: Bias)
    ensures
        ({
            let i = seek_index(es, point, bias, 0);
            &&& 0 <= i <= es.len()
            &&& i < es.len() ==> point@.not_after(
                summarize(excerpts_text(es.take(i + 1))).lines_utf16(),
            )
            &&& i < es.len() && bias is Right ==> point@.before(
                summarize(excerpts_text(es.take(i + 1))).lines_utf16(),
            )
            &&& summarize(excerpts_text(es.take(i))).lines_utf16().not_after(point@)
        }),
{
    reveal(summarize);
    let i = seek_index(es, point, bias, 0);
    lemma_seek(es, point, bias, 0);
    if i > 0 {
        assert(!seek_ends(es, point, bias, i - 1));
    }
    assert(es.take(0) =~= Seq::<Excerpt>::empty());
}

/// Where a search for a UTF-16 offset ends.
pub proof fn lemma_seek_offset_utf16(es: Seq<Excerpt>, offset: OffsetUtf16)
    ensures
        ({
            let i = seek_index(es, offset, Bias::Right, 0);
            &&& 0 <= i <= es.len()
            &&& i < es.len() ==> offset@ < summarize(
                excerpts_text(es.take(i + 1)),
            ).len_utf16
            &&& summarize(excerpts_text(es.take(i))).len_utf16 <= offset@
        }),
{
    reveal(summarize);
    let i = seek_index(es, offset, Bias::Right, 0);
    lemma_seek(es, offset, Bias::Right, 0);
    if i > 0 {
        assert(!seek_ends(es, offset, Bias::Right, i - 1));
    }
    assert(es.take(0) =~= Seq::<Excerpt>::empty());
}

/// Every excerpt starts a row.
pub proof fn lemma_excerpt_starts_row(es: Seq<Excerpt>, i: int)
    requires
        excerpts_wf(es),
        0 <= i < es.len(),
    ensures
        summarize(excerpts_text(es.take(i))).lines.column == 0,
        summarize(excerpts_text(es.take(i))).last_line_len_utf16 == 0,
        summarize(excerpts_text(es.take(i))).last_line_chars == 0,
        i > 0 ==> excerpt_start(es, i) > 0 && excerpts_text(es)[excerpt_start(es, i) - 1]
            == NEWLINE,
{
    reveal(summarize);
    assert(es.take(0) =~= Seq::<Excerpt>::empty());
    if i > 0 {
        let before = excerpts_text(es.take(i));
        lemma_excerpts_text_step(es, i - 1);
        assert(es[i - 1].has_trailing_newline);
        assert(es[i - 1].text().last() == NEWLINE);
        assert(before.last() == NEWLINE);
        lemma_excerpts_text_split(es, i);
        assert(excerpts_text(es).take(excerpt_start(es, i)).last() == NEWLINE);
    }
}

/// A place between excerpts.
#[derive(Clone, Copy, Debug)]
pub struct Cursor {
    /// How many excerpts stand before it.
    pub index: usize,
    /// What they measure.
    pub start: TextSummary,
}

impl Cursor {
    pub open spec fn wf(&self, es: Seq<Excerpt>) -> bool {
        &&& self.index <= es.len()
        &&& self.start@ == summarize(excerpts_text(es.take(self.index as int)))
        &&& self.start@.sound()
        &&& self.start.len == excerpt_start(es, self.index as int)
    }
}

impl MultiBufferSnapshot {
    /// The text of the multibuffer.
    pub open spec fn bytes(&self) -> Seq<u8> {
        excerpts_text(self.excerpts@)
    }

    pub open spec fn wf(&self) -> bool {
        &&& excerpts_wf(self.excerpts@)
        &&& excerpt_ids_wf(self.excerpt_ids@)
        &&& forall|i: int|
            0 <= i < self.excerpts@.len() ==> is_mapped(
                self.excerpt_ids@,
                #[trigger] self.excerpts@[i],
            )
        &&& self.singleton ==> {
            &&& self.excerpts@.len() <= 1
            &&& self.excerpts@.len() == 1 ==> {
                &&& self.excerpts@[0].start() == 0
                &&& self.excerpts@[0].end() == self.excerpts@[0].buffer.bytes().len()
            }
        }
    }

    /// Whether nothing but the excerpts and their identifiers differs.
    pub open spec fn same_but_excerpts(&self, other: &MultiBufferSnapshot) -> bool {
        &&& self.trailing_excerpt_update_count == other.trailing_excerpt_update_count
        &&& self.same_but_trailing(other)
    }

    /// Whether nothing but the excerpts, their identifiers and the count of
    /// changes at the end differs.
    pub open spec fn same_but_trailing(&self, other: &MultiBufferSnapshot) -> bool {
        &&& self.singleton == other.singleton
        &&& self.non_text_state_update_count == other.non_text_state_update_count
        &&& self.edit_count == other.edit_count
        &&& self.is_dirty == other.is_dirty
        &&& self.has_deleted_file == other.has_deleted_file
        &&& self.has_conflict == other.has_conflict
        &&& self.show_headers == other.show_headers
    }

    /// The place before the `index`-th excerpt.
    pub fn cursor_at(&self, index: usize) -> (r: Cursor)
        requires
            self.wf(),
            index <= self.excerpts@.len(),
        ensures
            r.wf(self.excerpts@),
            r.index == index,
    {
        let ghost es = self.excerpts@;
        let mut cursor = self.cursor_start();
        while cursor.index < index
            invariant
                self.wf(),
                es == self.excerpts@,
                index <= es.len(),
                cursor.wf(es),
                cursor.index <= index,
            decreases index - cursor.index,
        {
            self.advance(&mut cursor);
        }
        cursor
    }

    /// The place before the first excerpt.
    pub fn cursor_start(&self) -> (r: Cursor)
        ensures
            r.wf(self.excerpts@),
            r.index == 0,
    {
        proof {
            reveal(summarize);
        }
        assert(self.excerpts@.take(0) =~= Seq::<Excerpt>::empty());
        Cursor { index: 0, start: TextSummary::zero() }
    }

    /// What all excerpts up to the end of the one at the cursor measure.
    pub fn cursor_end(&self, cursor: &Cursor) -> (r: TextSummary)
        requires
            self.wf(),
            cursor.wf(self.excerpts@),
            cursor.index < self.excerpts@.len(),
        ensures
            r@ == summarize(excerpts_text(self.excerpts@.take(cursor.index + 1))),
            r@.sound(),
            r.len == excerpt_start(self.excerpts@, cursor.index + 1),
    {
        let excerpt = &self.excerpts[cursor.index];
        proof {
            let es = self.excerpts@;
            let i = cursor.index as int;
            lemma_excerpts_text_step(es, i);
            lemma_excerpts_text_split(es, i + 1);
            lemma_summary_sound(excerpts_text(es.take(i + 1)));
            lemma_summary_sound(es[i].text());
        }
        let mut end = cursor.start;
        end.append(&excerpt.text_with_newline());
        end
    }

    /// Moves the cursor behind the excerpt at it.
    pub fn advance(&self, cursor: &mut Cursor)
        requires
            self.wf(),
            old(cursor).wf(self.excerpts@),
            old(cursor).index < self.excerpts@.len(),
        ensures
            final(cursor).wf(self.excerpts@),
            final(cursor).index == old(cursor).index + 1,
    {
        let end = self.cursor_end(cursor);
        assert(cursor.index < self.excerpts.len());
        cursor.start = end;
        cursor.index = cursor.index + 1;
    }

    /// The place before the first excerpt at which a search for `target` ends.
    pub fn seek<T: Landmark>(&self, target: &T, bias: Bias) -> (r: Cursor)
        requires
            self.wf(),
        ensures
            r.wf(self.excerpts@),
            r.index == seek_index(self.excerpts@, *target, bias, 0),
    {
        let ghost es = self.excerpts@;
        let mut cursor = self.cursor_start();
        while cursor.index < self.excerpts.len()
            invariant
                self.wf(),
                es == self.excerpts@,
                cursor.wf(es),
                cursor.index <= es.len(),
                seek_index(es, *target, bias, 0) == seek_index(
                    es,
                    *target,
                    bias,
                    cursor.index as int,
                ),
            decreases es.len() - cursor.index,
        {
            let end = self.cursor_end(&cursor);
            if target.is_before(&end) || (bias == Bias::Left && target.is_at(&end)) {
                return cursor;
            }
            cursor = Cursor { index: cursor.index + 1, start: end };
        }
        cursor
    }

    /// What the whole text measures.
    pub fn text_summary(&self) -> (r: TextSummary)
        requires
            self.wf(),
        ensures
            r@ == summarize(self.bytes()),
            r@.sound(),
            r.len == self.bytes().len(),
    {
        let cursor = self.cursor_at(self.excerpts.len());
        assert(self.excerpts@.take(self.excerpts@.len() as int) =~= self.excerpts@);
        cursor.start
    }

    /// The excerpt, the buffer and its contents, where the multibuffer shows a
    /// single buffer.
    pub fn as_singleton(&self) -> (r: Option<(ExcerptId, BufferId, &BufferSnapshot)>)
        ensures
            match r {
                Some((id, buffer_id, buffer)) => {
                    &&& self.singleton
                    &&& self.excerpts@.len() > 0
                    &&& id == self.excerpts@[0].id
                    &&& buffer_id == self.excerpts@[0].buffer_id
                    &&& *buffer == *self.excerpts@[0].buffer
                },
                None => !self.singleton || self.excerpts@.len() == 0,
            },
    {
        if self.singleton && self.excerpts.len() > 0 {
            let excerpt = &self.excerpts[0];
            Some((excerpt.id, excerpt.buffer_id, &excerpt.buffer))
        } else {
            None
        }
    }

    pub fn len(&self) -> (r: usize)
        requires
            self.wf(),
        ensures
            r == self.bytes().len(),
    {
        self.text_summary().len
    }

    pub fn is_empty(&self) -> (r: bool)
        requires
            self.wf(),
        ensures
            r == (self.bytes().len() == 0),
    {
        self.len() == 0
    }
}

impl MultiBufferSnapshot {
    pub fn trailing_excerpt_update_count(&self) -> (r: usize)
        ensures
            r == self.trailing_excerpt_update_count,
    {
        self.trailing_excerpt_update_count
    }

    pub fn non_text_state_update_count(&self) -> (r: usize)
        ensures
            r == self.non_text_state_update_count,
    {
        self.non_text_state_update_count
    }

    pub fn edit_count(&self) -> (r: usize)
        ensures
            r == self.edit_count,
    {
        self.edit_count
    }

    pub fn is_dirty(&self) -> (r: bool)
        ensures
            r == self.is_dirty,
    {
        self.is_dirty
    }

    pub fn has_deleted_file(&self) -> (r: bool)
        ensures
            r == self.has_deleted_file,
    {
        self.has_deleted_file
    }

    pub fn has_conflict(&self) -> (r: bool)
        ensures
            r == self.has_conflict,
    {
        self.has_conflict
    }

    pub fn show_headers(&self) -> (r: bool)
        ensures
            r == self.show_headers,
    {
        self.show_headers
    }

    /// Whether some excerpt shows a buffer with diagnostics.
    pub fn has_diagnostics(&self) -> (r: bool)
        ensures
            r == exists|i: int|
                0 <= i < self.excerpts@.len() && (
                #[trigger] self.excerpts@[i]).buffer.has_diagnostics,
    {
        let mut i: usize = 0;
        while i < self.excerpts.len()
            invariant
                i <= self.excerpts@.len(),
                forall|j: int|
                    0 <= j < i ==> !(#[trigger] self.excerpts@[j]).buffer.has_diagnostics,
            decreases self.excerpts@.len() - i,
        {
            if self.excerpts[i].buffer.has_diagnostics {
                assert(self.excerpts@[i as int].buffer.has_diagnostics);
                return true;
            }
            i = i + 1;
        }
        false
    }

    /// The excerpts, in order, with their buffers and the stretches that they
    /// show.
    pub fn excerpts(&self) -> (r: Vec<(ExcerptId, &BufferSnapshot, ExcerptRange<TextAnchor>)>)
        ensures
            r@.len() == self.excerpts@.len(),
            forall|i: int|
                0 <= i < r@.len() ==> {
                    &&& (#[trigger] r@[i]).0 == self.excerpts@[i].id
                    &&& *r@[i].1 == *self.excerpts@[i].buffer
                    &&& r@[i].2 == self.excerpts@[i].range
                },
    {
        let mut r: Vec<(ExcerptId, &BufferSnapshot, ExcerptRange<TextAnchor>)> = Vec::new();
        let mut i: usize = 0;
        while i < self.excerpts.len()
            invariant
                i <= self.excerpts@.len(),
                r@.len() == i,
                forall|i: int|
                    0 <= i < r@.len() ==> {
                        &&& (#[trigger] r@[i]).0 == self.excerpts@[i].id
                        &&& *r@[i].1 == *self.excerpts@[i].buffer
                        &&& r@[i].2 == self.excerpts@[i].range
                    },
            decreases self.excerpts@.len() - i,
        {
            let excerpt = &self.excerpts[i];
            r.push((excerpt.id, &excerpt.buffer, excerpt.range.clone()));
            i = i + 1;
        }
        r
    }
}

} // verus!
