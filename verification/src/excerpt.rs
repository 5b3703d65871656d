//! Excerpts: the stretches of buffers that a multibuffer shows.

use std::ops::Range;
use std::sync::Arc;
use vstd::prelude::*;
use vstd::utf8::*;

use crate::anchor::Anchor;
use crate::buffer::{anchor_precedes, resolved, BufferId, BufferSnapshot, TextAnchor};
use crate::locator::Locator;
use crate::shared::share;
use crate::text::{
    is_boundary, lemma_summarize_concat, lemma_summary_sound, lemma_take_split, point_at, summarize,
    text_summary_with, Point, Pos, Summary, TextSummary, MAX_TEXT_LEN, NEWLINE,
};

verus! {

/// Names an excerpt. A larger identifier was handed out later.
#[derive(Clone, Copy, Debug, PartialEq, Eq, PartialOrd, Ord, Hash, Structural)]
pub struct ExcerptId(pub usize);

impl ExcerptId {
    /// The identifier that stands for the position before all excerpts.
    pub fn min() -> (r: Self)
        ensures
            r.0 == 0,
    {
        ExcerptId(0)
    }

    /// The identifier that stands for the position behind all excerpts.
    pub fn max() -> (r: Self)
        ensures
            r.0 == usize::MAX,
    {
        ExcerptId(usize::MAX)
    }

    pub fn to_proto(&self) -> (r: u64)
        ensures
            r == self.0,
    {
        self.0 as u64
    }

    /// The identifier with the number `proto`, where `usize` can hold it.
    pub fn from_proto(proto: u64) -> (r: Self)
        ensures
            r.0 == proto as usize,
    {
        ExcerptId(proto as usize)
    }
}

impl Default for ExcerptId {
    fn default() -> (r: Self)
        ensures
            r.0 == 0,
    {
        ExcerptId(0)
    }
}

impl vstd::std_specs::convert::FromSpecImpl<ExcerptId> for usize {
    open spec fn obeys_from_spec() -> bool {
        true
    }

    open spec fn from_spec(v: ExcerptId) -> usize {
        v.0
    }
}

impl From<ExcerptId> for usize {
    fn from(val: ExcerptId) -> (r: Self) {
        val.0
    }
}

/// A row of the multibuffer, as opposed to a row of one of its buffers.
#[derive(Clone, Copy, Debug, Default, PartialEq, Eq, PartialOrd, Ord, Hash, Structural)]
pub struct MultiBufferRow(pub u32);

impl MultiBufferRow {
    /// The first row.
    pub fn min() -> (r: Self)
        ensures
            r == MultiBufferRow(0),
    {
        MultiBufferRow(0)
    }

    /// A row behind all others.
    pub fn max() -> (r: Self)
        ensures
            r == MultiBufferRow(u32::MAX),
    {
        MultiBufferRow(u32::MAX)
    }
}

/// A row and a column in a multibuffer.
pub type MultiBufferPoint = Point;

/// A range of rows in a multibuffer that differ from the base of a diff.
#[derive(Debug, PartialEq, Eq)]
pub struct MultiBufferDiffHunk {
    /// The rows in the multibuffer.
    pub row_range: Range<MultiBufferRow>,
    /// The buffer that the rows show.
    pub buffer_id: BufferId,
    /// The range of the buffer.
    pub buffer_range: Range<TextAnchor>,
    /// The range of the base.
    pub diff_base_byte_range: Range<usize>,
}

/// The stretch of a buffer that an excerpt shows.
#[derive(Debug, PartialEq, Eq)]
pub struct ExcerptRange<T> {
    /// What the excerpt shows.
    pub context: Range<T>,
    /// The part of it that made someone ask for the excerpt.
    pub primary: Option<Range<T>>,
}

impl<T: Copy> Clone for ExcerptRange<T> {
    fn clone(&self) -> (r: Self)
        ensures
            r == *self,
    {
        ExcerptRange {
            context: self.context.start..self.context.end,
            primary: match &self.primary {
                Some(primary) => Some(primary.start..primary.end),
                None => None,
            },
        }
    }
}

/// In which direction an excerpt grows.
#[derive(Clone, Copy, Debug, PartialEq, Eq, Structural)]
pub enum ExpandExcerptDirection {
    Up,
    Down,
    UpAndDown,
}

impl ExpandExcerptDirection {
    pub fn should_expand_up(&self) -> (r: bool)
        ensures
            r == (self is Up || self is UpAndDown),
    {
        match self {
            ExpandExcerptDirection::Up => true,
            ExpandExcerptDirection::Down => false,
            ExpandExcerptDirection::UpAndDown => true,
        }
    }

    pub fn should_expand_down(&self) -> (r: bool)
        ensures
            r == (self is Down || self is UpAndDown),
    {
        match self {
            ExpandExcerptDirection::Up => false,
            ExpandExcerptDirection::Down => true,
            ExpandExcerptDirection::UpAndDown => true,
        }
    }
}
/// A stretch of a buffer that a multibuffer shows.
#[derive(Debug)]
pub struct Excerpt {
    pub id: ExcerptId,
    /// The place of the excerpt among the others.
    pub locator: Locator,
    pub buffer_id: BufferId,
    /// The buffer that the excerpt shows a part of.
    pub buffer: Arc<BufferSnapshot>,
    /// Which part of the buffer that is.
    pub range: ExcerptRange<TextAnchor>,
    /// The last row of that part, in the buffer.
    pub max_buffer_row: u32,
    /// What that part measures.
    pub text_summary: TextSummary,
    /// Whether a line break follows in the multibuffer.
    pub has_trailing_newline: bool,
}

/// What a run of excerpts adds up to.
#[derive(Debug)]
pub struct ExcerptSummary {
    pub excerpt_id: ExcerptId,
    /// The locator of the last excerpt.
    pub excerpt_locator: Locator,
    pub widest_line_number: u32,
    pub text: TextSummary,
}

/// The line break behind an excerpt.
pub open spec fn trailing_newline(present: bool) -> Seq<u8> {
    if present {
        seq![NEWLINE]
    } else {
        seq![]
    }
}

impl Excerpt {
    /// Where the excerpt starts in its buffer.
    pub open spec fn start(&self) -> int {
        resolved(self.range.context.start, self.buffer.bytes().len() as int)
    }

    /// Where the excerpt ends in its buffer.
    pub open spec fn end(&self) -> int {
        resolved(self.range.context.end, self.buffer.bytes().len() as int)
    }

    /// The part of the buffer that the excerpt shows.
    pub open spec fn bytes(&self) -> Seq<u8> {
        self.buffer.bytes().subrange(self.start(), self.end())
    }

    /// What the excerpt adds to the text of the multibuffer.
    pub open spec fn text(&self) -> Seq<u8> {
        self.bytes() + trailing_newline(self.has_trailing_newline)
    }

    /// Where the excerpt starts in its buffer, as a row and a column.
    pub open spec fn start_pos(&self) -> Pos {
        point_at(self.buffer.bytes(), self.start())
    }

    pub open spec fn wf(&self) -> bool {
        &&& self.buffer.wf()
        &&& self.buffer.remote_id == self.buffer_id
        &&& self.start() <= self.end()
        &&& is_boundary(self.buffer.bytes(), self.start())
        &&& is_boundary(self.buffer.bytes(), self.end())
        &&& self.text_summary@ == summarize(self.bytes())
        &&& self.max_buffer_row == point_at(self.buffer.bytes(), self.end()).row
    }

    /// The excerpt, showing another stretch of its buffer.
    pub open spec fn with_context(self, context: Range<TextAnchor>) -> Excerpt {
        let bytes = self.buffer.bytes();
        let start = resolved(context.start, bytes.len() as int);
        let end = resolved(context.end, bytes.len() as int);
        Excerpt {
            range: ExcerptRange { context, primary: self.range.primary },
            max_buffer_row: point_at(bytes, end).row as u32,
            text_summary: text_summary_with(summarize(bytes.subrange(start, end))),
            ..self
        }
    }

    /// Whether a stretch of the excerpt's buffer can be shown.
    pub open spec fn can_show(&self, context: Range<TextAnchor>) -> bool {
        let bytes = self.buffer.bytes();
        let start = resolved(context.start, bytes.len() as int);
        let end = resolved(context.end, bytes.len() as int);
        start <= end && is_boundary(bytes, start) && is_boundary(bytes, end)
    }

    /// The excerpt with another line break behind it.
    pub open spec fn with_newline(self, present: bool) -> Excerpt {
        Excerpt { has_trailing_newline: present, ..self }
    }
}

/// The text that a sequence of excerpts makes up.
pub open spec fn excerpts_text(es: Seq<Excerpt>) -> Seq<u8>
    decreases es.len(),
{
    if es.len() == 0 {
        seq![]
    } else {
        excerpts_text(es.drop_last()) + es.last().text()
    }
}

/// Where the `i`-th excerpt starts in that text.
pub open spec fn excerpt_start(es: Seq<Excerpt>, i: int) -> int {
    excerpts_text(es.take(i)).len() as int
}

pub proof fn lemma_excerpts_text_concat(a: Seq<Excerpt>, b: Seq<Excerpt>)
    ensures
        excerpts_text(a + b) == excerpts_text(a) + excerpts_text(b),
    decreases b.len(),
{
    if b.len() == 0 {
        assert(a + b =~= a);
        assert(excerpts_text(a) + excerpts_text(b) =~= excerpts_text(a));
    } else {
        lemma_excerpts_text_concat(a, b.drop_last());
        assert((a + b).drop_last() =~= a + b.drop_last());
        assert((a + b).last() == b.last());
        assert(excerpts_text(a + b) =~= excerpts_text(a) + excerpts_text(b));
    }
}

/// The text of one excerpt more.
pub proof fn lemma_excerpts_text_step(es: Seq<Excerpt>, i: int)
    requires
        0 <= i < es.len(),
    ensures
        excerpts_text(es.take(i + 1)) == excerpts_text(es.take(i)) + es[i].text(),
        excerpt_start(es, i + 1) == excerpt_start(es, i) + es[i].text().len(),
        summarize(excerpts_text(es.take(i + 1))) == summarize(excerpts_text(es.take(i))).join(
            summarize(es[i].text()),
        ),
{
    assert(es.take(i + 1).drop_last() =~= es.take(i));
    assert(es.take(i + 1).last() == es[i]);
    lemma_summarize_concat(excerpts_text(es.take(i)), es[i].text());
}

/// The text is the text before the `i`-th excerpt, that excerpt's, and the rest.
pub proof fn lemma_excerpts_text_split(es: Seq<Excerpt>, i: int)
    requires
        0 <= i <= es.len(),
    ensures
        excerpts_text(es) == excerpts_text(es.take(i)) + excerpts_text(es.skip(i)),
        excerpts_text(es).take(excerpt_start(es, i)) == excerpts_text(es.take(i)),
        0 <= excerpt_start(es, i) <= excerpts_text(es).len(),
{
    lemma_excerpts_text_concat(es.take(i), es.skip(i));
    assert(es.take(i) + es.skip(i) =~= es);
    assert(excerpts_text(es).take(excerpt_start(es, i)) =~= excerpts_text(es.take(i)));
}

/// What stands between two offsets of one excerpt.
pub proof fn lemma_text_within(es: Seq<Excerpt>, i: int, a: int, b: int)
    requires
        0 <= i < es.len(),
        0 <= a <= b <= es[i].text().len(),
    ensures
        excerpt_start(es, i) + b <= excerpts_text(es).len(),
        excerpts_text(es).subrange(excerpt_start(es, i) + a, excerpt_start(es, i) + b)
            == es[i].text().subrange(a, b),
        excerpts_text(es).take(excerpt_start(es, i) + b) == excerpts_text(es.take(i))
            + es[i].text().take(b),
{
    lemma_excerpts_text_split(es, i + 1);
    lemma_excerpts_text_step(es, i);
    let before = excerpts_text(es.take(i));
    let whole = excerpts_text(es);
    assert(whole =~= before + es[i].text() + excerpts_text(es.skip(i + 1)));
    assert(whole.subrange(before.len() + a, before.len() + b) =~= es[i].text().subrange(a, b));
    assert(whole.take(before.len() + b) =~= before + es[i].text().take(b));
}

pub proof fn lemma_excerpt_start_grows(es: Seq<Excerpt>, i: int, j: int)
    requires
        0 <= i <= j <= es.len(),
    ensures
        excerpt_start(es, i) <= excerpt_start(es, j),
        0 <= excerpt_start(es, i),
    decreases j - i,
{
    if i < j {
        lemma_excerpt_start_grows(es, i, j - 1);
        lemma_excerpts_text_step(es, j - 1);
    }
}

/// What an excerpt shows up to the `k`-th byte measures what its buffer
/// measures up to there, counted from the start of the excerpt.
pub proof fn lemma_excerpt_position(e: Excerpt, k: int)
    requires
        e.wf(),
        0 <= k <= e.bytes().len(),
    ensures
        e.bytes().take(k) == e.buffer.bytes().subrange(e.start(), e.start() + k),
        e.bytes().len() == e.end() - e.start(),
        e.text().take(k) == e.bytes().take(k),
        summarize(e.buffer.bytes().take(e.start() + k)) == summarize(
            e.buffer.bytes().take(e.start()),
        ).join(summarize(e.bytes().take(k))),
{
    assert(e.bytes().take(k) =~= e.buffer.bytes().subrange(e.start(), e.start() + k));
    assert(e.text().take(k) =~= e.bytes().take(k));
    lemma_take_split(e.buffer.bytes(), e.start(), e.start() + k);
}

impl Clone for Excerpt {
    fn clone(&self) -> (r: Self)
        ensures
            r == *self,
    {
        Excerpt {
            id: self.id,
            locator: self.locator.clone(),
            buffer_id: self.buffer_id,
            buffer: share(&self.buffer),
            range: self.range.clone(),
            max_buffer_row: self.max_buffer_row,
            text_summary: self.text_summary,
            has_trailing_newline: self.has_trailing_newline,
        }
    }
}

impl Excerpt {
    pub fn new(
        id: ExcerptId,
        locator: Locator,
        buffer_id: BufferId,
        buffer: Arc<BufferSnapshot>,
        range: ExcerptRange<TextAnchor>,
        has_trailing_newline: bool,
    ) -> (r: Self)
        requires
            buffer.wf(),
            buffer.remote_id == buffer_id,
            resolved(range.context.start, buffer.bytes().len() as int) <= resolved(
                range.context.end,
                buffer.bytes().len() as int,
            ),
            is_boundary(
                buffer.bytes(),
                resolved(range.context.start, buffer.bytes().len() as int),
            ),
            is_boundary(
                buffer.bytes(),
                resolved(range.context.end, buffer.bytes().len() as int),
            ),
        ensures
            r.wf(),
            r.id == id,
            r.locator == locator,
            r.buffer_id == buffer_id,
            r.buffer == buffer,
            r.range == range,
            r.has_trailing_newline == has_trailing_newline,
    {
        let start: usize = range.context.start.to_offset(&buffer);
        let end: usize = range.context.end.to_offset(&buffer);
        Excerpt {
            id,
            locator,
            max_buffer_row: range.context.end.to_point(&buffer).row,
            text_summary: buffer.text_summary_for_range(start..end),
            buffer_id,
            buffer,
            range,
            has_trailing_newline,
        }
    }

    /// The excerpt, showing another stretch of its buffer.
    pub fn resized(&self, context: Range<TextAnchor>) -> (r: Self)
        requires
            self.wf(),
            self.can_show(context),
        ensures
            r.wf(),
            r == self.with_context(context),
    {
        let start: usize = context.start.to_offset(&self.buffer);
        let end: usize = context.end.to_offset(&self.buffer);
        Excerpt {
            id: self.id,
            locator: self.locator.clone(),
            buffer_id: self.buffer_id,
            max_buffer_row: context.end.to_point(&self.buffer).row,
            text_summary: self.buffer.text_summary_for_range(start..end),
            buffer: share(&self.buffer),
            range: ExcerptRange {
                context,
                primary: match &self.range.primary {
                    Some(primary) => Some(primary.start..primary.end),
                    None => None,
                },
            },
            has_trailing_newline: self.has_trailing_newline,
        }
    }

    /// What the excerpt adds to the text of the multibuffer, as a summary.
    pub fn text_with_newline(&self) -> (r: TextSummary)
        requires
            self.wf(),
            self.text().len() <= MAX_TEXT_LEN,
        ensures
            r@ == summarize(self.text()),
            r@.sound(),
    {
        proof {
            reveal(summarize);
        }
        let mut text = self.text_summary;
        proof {
            lemma_summary_sound(self.bytes());
            lemma_summary_sound(self.text());
            if self.has_trailing_newline {
                assert(self.text().drop_last() =~= self.bytes());
            } else {
                assert(self.text() =~= self.bytes());
            }
        }
        if self.has_trailing_newline {
            text.push_byte(NEWLINE);
        }
        text
    }

    /// What the excerpt adds up to on its own.
    pub fn summary(&self) -> (r: ExcerptSummary)
        requires
            self.wf(),
            self.text().len() <= MAX_TEXT_LEN,
        ensures
            r.excerpt_id == self.id,
            r.excerpt_locator == self.locator,
            r.widest_line_number == self.max_buffer_row,
            r.text@ == summarize(self.text()),
    {
        ExcerptSummary {
            excerpt_id: self.id,
            excerpt_locator: self.locator.clone(),
            widest_line_number: self.max_buffer_row,
            text: self.text_with_newline(),
        }
    }

    pub fn buffer_start_offset(&self) -> (r: usize)
        requires
            self.wf(),
        ensures
            r == self.start(),
    {
        self.range.context.start.to_offset(&self.buffer)
    }

    pub fn buffer_start_point(&self) -> (r: Point)
        requires
            self.wf(),
        ensures
            r@ == self.start_pos(),
    {
        self.range.context.start.to_point(&self.buffer)
    }

    pub fn buffer_end_offset(&self) -> (r: usize)
        requires
            self.wf(),
        ensures
            r == self.end(),
    {
        proof {
            lemma_summary_sound(self.bytes());
        }
        self.buffer_start_offset() + self.text_summary.len
    }

    /// `text_anchor`, moved into the excerpt.
    pub open spec fn clipped_anchor(&self, text_anchor: TextAnchor) -> TextAnchor {
        let len = self.buffer.bytes().len() as int;
        if anchor_precedes(text_anchor, self.range.context.start, len) {
            self.range.context.start
        } else if anchor_precedes(self.range.context.end, text_anchor, len) {
            self.range.context.end
        } else {
            text_anchor
        }
    }

    pub fn clip_anchor(&self, text_anchor: TextAnchor) -> (r: TextAnchor)
        requires
            self.wf(),
        ensures
            r == self.clipped_anchor(text_anchor),
    {
        if text_anchor.precedes(&self.range.context.start, &self.buffer) {
            self.range.context.start
        } else if self.range.context.end.precedes(&text_anchor, &self.buffer) {
            self.range.context.end
        } else {
            text_anchor
        }
    }

    /// Whether `anchor` lies in the part of the buffer that the excerpt shows.
    pub open spec fn holds(&self, anchor: Anchor) -> bool {
        let len = self.buffer.bytes().len() as int;
        &&& anchor.buffer_id == Some(self.buffer_id)
        &&& !anchor_precedes(anchor.text_anchor, self.range.context.start, len)
        &&& !anchor_precedes(self.range.context.end, anchor.text_anchor, len)
    }

    pub fn contains(&self, anchor: &Anchor) -> (r: bool)
        requires
            self.wf(),
        ensures
            r == self.holds(*anchor),
    {
        let same_buffer: bool = match anchor.buffer_id {
            Some(buffer_id) => buffer_id == self.buffer_id,
            None => false,
        };
        same_buffer && !anchor.text_anchor.precedes(&self.range.context.start, &self.buffer)
            && !self.range.context.end.precedes(&anchor.text_anchor, &self.buffer)
    }
}

impl ExcerptSummary {
    pub fn zero() -> (r: Self)
        ensures
            r.excerpt_id == ExcerptId(0),
            r.excerpt_locator@ == seq![0u64],
            r.widest_line_number == 0,
            r.text@ == Summary::zero(),
    {
        ExcerptSummary {
            excerpt_id: ExcerptId::min(),
            excerpt_locator: Locator::min(),
            widest_line_number: 0,
            text: TextSummary::zero(),
        }
    }

    /// Adds a run of excerpts that adds up to `summary` behind this one.
    pub fn add_summary(&mut self, summary: &Self)
        requires
            old(self).text@.sound(),
            summary.text@.sound(),
            old(self).text.len + summary.text.len <= MAX_TEXT_LEN,
        ensures
            final(self).excerpt_id == old(self).excerpt_id,
            final(self).excerpt_locator == summary.excerpt_locator,
            final(self).widest_line_number == if summary.widest_line_number
                > old(self).widest_line_number {
                summary.widest_line_number
            } else {
                old(self).widest_line_number
            },
            final(self).text@ == old(self).text@.join(summary.text@),
    {
        self.excerpt_locator = summary.excerpt_locator.clone();
        self.text.append(&summary.text);
        if summary.widest_line_number > self.widest_line_number {
            self.widest_line_number = summary.widest_line_number;
        }
    }
}

} // verus!
