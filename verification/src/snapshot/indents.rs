//! How the lines of a multibuffer are indented.
//!
//! What the languages of the buffers say of their lines comes in as replies.

use std::collections::BTreeMap;
use vstd::prelude::*;
use vstd::utf8::{decode_utf8, encode_utf8, encode_utf8_decode_utf8};

use crate::buffer::BufferId;
use crate::excerpt::{excerpts_text, lemma_excerpts_text_split, Excerpt, ExcerptId, MultiBufferRow};
use crate::position::ToOffset;
use crate::snapshot::lines::{first_row, lemma_excerpt_rows};
use crate::snapshot::{excerpts_wf, lemma_seek_point, seek_index, Cursor, MultiBufferSnapshot};
use crate::text::{
    is_boundary, lemma_find_point, lemma_summary_sound, point_at, summarize, Bias, Point,
    MAX_TEXT_LEN,
};

verus! {

/// What lines are indented with.
#[derive(Clone, Copy, Debug, PartialEq, Eq, Structural)]
pub enum IndentKind {
    Space,
    Tab,
}

/// How far a line is indented.
#[derive(Clone, Copy, Debug, PartialEq, Eq, Structural)]
pub struct IndentSize {
    pub len: u32,
    pub kind: IndentKind,
}

impl IndentKind {
    pub open spec fn spec_char(&self) -> char {
        match self {
            IndentKind::Space => ' ',
            IndentKind::Tab => '\t',
        }
    }

    fn char(&self) -> (r: char)
        ensures
            r == self.spec_char(),
    {
        match self {
            IndentKind::Space => ' ',
            IndentKind::Tab => '\t',
        }
    }
}

impl IndentSize {
    pub fn spaces(len: u32) -> (r: Self)
        ensures
            r == (IndentSize { len, kind: IndentKind::Space }),
    {
        IndentSize { len, kind: IndentKind::Space }
    }

    /// The characters that indent a line.
    pub open spec fn spec_chars(&self) -> Seq<char> {
        Seq::new(self.len as nat, |k: int| self.kind.spec_char())
    }

    /// The characters that indent a line.
    pub fn chars(&self) -> (r: Vec<char>)
        ensures
            r@ == self.spec_chars(),
    {
        let mut r: Vec<char> = Vec::new();
        let mut k: u32 = 0;
        while k < self.len
            invariant
                k <= self.len,
                r@ == self.spec_chars().take(k as int),
            decreases self.len - k,
        {
            r.push(self.kind.char());
            assert(r@ =~= self.spec_chars().take(k + 1));
            k = k + 1;
        }
        assert(r@ =~= self.spec_chars());
        r
    }
}

/// Whether a character has the Unicode property `White_Space`.
pub open spec fn has_white_space(c: char) -> bool {
    let n = c as int;
    ||| 0x9 <= n <= 0xd
    ||| n == 0x20
    ||| n == 0x85
    ||| n == 0xa0
    ||| n == 0x1680
    ||| 0x2000 <= n <= 0x200a
    ||| 0x2028 <= n <= 0x2029
    ||| n == 0x202f
    ||| n == 0x205f
    ||| n == 0x3000
}

/// Calls `char::is_whitespace`, which is documented to tell whether a character has
/// the Unicode property `White_Space`.
#[verifier::external_body]
fn is_whitespace(c: char) -> (r: bool)
    ensures
        r == has_white_space(c),
{
    c.is_whitespace()
}

/// Whether all of the flags are set.
pub fn all_set(flags: &Vec<bool>) -> (r: bool)
    ensures
        r == forall|k: int| 0 <= k < flags@.len() ==> #[trigger] flags@[k],
{
    let mut k: usize = 0;
    while k < flags.len()
        invariant
            k <= flags@.len(),
            forall|j: int| 0 <= j < k ==> #[trigger] flags@[j],
        decreases flags@.len() - k,
    {
        if !flags[k] {
            assert(!flags@[k as int]);
            return false;
        }
        k = k + 1;
    }
    true
}

/// Whether all of the characters are white space.
pub open spec fn are_blank(chars: Seq<char>) -> bool {
    forall|k: int| 0 <= k < chars.len() ==> has_white_space(#[trigger] chars[k])
}

fn is_blank(text: &str) -> (r: bool)
    ensures
        r == are_blank(text@),
{
    let mut flags: Vec<bool> = Vec::new();
    for c in iter: text.chars()
        invariant
            iter.seq() == text@,
            flags@.len() == iter.index(),
            forall|k: int|
                0 <= k < flags@.len() ==> #[trigger] flags@[k] == has_white_space(text@[k]),
    {
        flags.push(is_whitespace(c));
    }
    let r = all_set(&flags);
    proof {
        if r {
            assert forall|k: int| 0 <= k < text@.len() implies has_white_space(
                #[trigger] text@[k],
            ) by {
                assert(flags@[k]);
            }
        } else {
            let k = choose|k: int| 0 <= k < flags@.len() && !#[trigger] flags@[k];
            assert(!has_white_space(text@[k]));
        }
    }
    r
}

impl MultiBufferSnapshot {
    /// The bytes of a row.
    pub open spec fn line_bytes(&self, row: u32) -> Seq<u8> {
        let i = self.line_index(row);
        if i < self.excerpts@.len() {
            self.excerpts@[i].buffer.bytes().subrange(
                self.line_start_in_buffer(i, row as int),
                self.line_end_in_buffer(i, row as int),
            )
        } else {
            seq![]
        }
    }

    /// Whether a row holds nothing but white space.
    pub open spec fn line_is_blank(&self, row: u32) -> bool {
        are_blank(decode_utf8(self.line_bytes(row)))
    }

    /// Whether a row holds nothing but white space.
    pub fn is_line_blank(&self, row: MultiBufferRow) -> (r: bool)
        requires
            self.wf(),
        ensures
            r == self.line_is_blank(row.0),
    {
        match self.buffer_line_for_row(row) {
            Some((buffer, range)) => {
                let ghost i = self.line_index(row.0);
                let ghost start = self.line_start_in_buffer(i, row.0 as int);
                let ghost end = self.line_end_in_buffer(i, row.0 as int);
                let ghost t = buffer.bytes();
                proof {
                    self.lemma_line(row.0);
                    assert(self.excerpts@[i].wf());
                    lemma_find_point(t, range.start, start);
                    lemma_find_point(t, range.end, end);
                }
                let from: usize = buffer.point_to_offset(range.start);
                let to: usize = buffer.point_to_offset(range.end);
                let line = buffer.slice(from, to);
                proof {
                    encode_utf8_decode_utf8(line@);
                }
                is_blank(line)
            },
            None => {
                proof {
                    lemma_empty_line();
                }
                true
            },
        }
    }

    /// The nearest row before `row`, or `-1`, that holds more than white space.
    pub open spec fn row_before(&self, row: int) -> int
        decreases row,
    {
        if row <= 0 {
            -1
        } else if !self.line_is_blank((row - 1) as u32) {
            row - 1
        } else {
            self.row_before(row - 1)
        }
    }

    /// The nearest row before `row` that holds more than white space.
    pub fn prev_non_blank_row(&self, row: MultiBufferRow) -> (r: Option<MultiBufferRow>)
        requires
            self.wf(),
        ensures
            match r {
                Some(found) => found.0 == self.row_before(row.0 as int),
                None => self.row_before(row.0 as int) == -1,
            },
    {
        let mut before: u32 = row.0;
        while before > 0
            invariant
                self.wf(),
                self.row_before(row.0 as int) == self.row_before(before as int),
            decreases before,
        {
            before = before - 1;
            if !self.is_line_blank(MultiBufferRow(before)) {
                return Some(MultiBufferRow(before));
            }
        }
        None
    }

    /// How far a row is indented. The buffer has replied how far its line is.
    pub fn indent_size_for_line(&self, row: MultiBufferRow, of_buffer: IndentSize) -> (r:
        IndentSize)
        requires
            self.wf(),
        ensures
            r == self.shown_indent(row.0, of_buffer),
    {
        match self.buffer_line_for_row(row) {
            Some((_, range)) => {
                let len: u32 = if of_buffer.len < range.end.column {
                    of_buffer.len
                } else {
                    range.end.column
                };
                IndentSize { len: len.saturating_sub(range.start.column), kind: of_buffer.kind }
            },
            None => IndentSize::spaces(0),
        }
    }

    /// The part of a line's indent that is shown.
    pub open spec fn shown_indent(&self, row: u32, of_buffer: IndentSize) -> IndentSize {
        let i = self.line_index(row);
        if i < self.excerpts@.len() {
            let t = self.excerpts@[i].buffer.bytes();
            let start = point_at(t, self.line_start_in_buffer(i, row as int)).column;
            let end = point_at(t, self.line_end_in_buffer(i, row as int)).column;
            let len = if of_buffer.len < end {
                of_buffer.len as int
            } else {
                end
            };
            IndentSize {
                len: if len > start {
                    (len - start) as u32
                } else {
                    0
                },
                kind: of_buffer.kind,
            }
        } else {
            IndentSize { len: 0, kind: IndentKind::Space }
        }
    }
}

proof fn lemma_empty_line()
    ensures
        are_blank(decode_utf8(Seq::<u8>::empty())),
{
}

/// Whether a text starts with another.
pub open spec fn starts_with(text: Seq<char>, prefix: Seq<char>) -> bool {
    prefix.len() <= text.len() && text.take(prefix.len() as int) == prefix
}

/// The first of the texts from `from` on that `text` starts with, or their number.
pub open spec fn first_prefix(text: Seq<char>, prefixes: Seq<String>, from: int) -> int
    decreases prefixes.len() - from,
{
    if from >= prefixes.len() {
        prefixes.len() as int
    } else if starts_with(text, prefixes[from]@) {
        from
    } else {
        first_prefix(text, prefixes, from + 1)
    }
}

fn has_prefix(text: &Vec<char>, prefix: &str) -> (r: bool)
    ensures
        r == starts_with(text@, prefix@),
{
    let mut k: usize = 0;
    for c in iter: prefix.chars()
        invariant
            iter.seq() == prefix@,
            k == iter.index(),
            k <= text@.len(),
            text@.take(k as int) == prefix@.take(k as int),
    {
        if k >= text.len() {
            return false;
        }
        if text[k] != c {
            assert(text@[k as int] != prefix@[k as int]);
            proof {
                if starts_with(text@, prefix@) {
                    assert(text@.take(prefix@.len() as int)[k as int] == prefix@[k as int]);
                }
            }
            return false;
        }
        assert(text@.take(k + 1) =~= prefix@.take(k + 1));
        k = k + 1;
    }
    assert(prefix@.take(prefix@.len() as int) =~= prefix@);
    true
}

fn push_all(text: &mut Vec<char>, more: &str)
    ensures
        final(text)@ == old(text)@ + more@,
{
    let ghost before = text@;
    assert(before + more@.take(0) =~= before);
    for c in iter: more.chars()
        invariant
            iter.seq() == more@,
            text@ == before + more@.take(iter.index()),
    {
        text.push(c);
        assert(text@ =~= before + more@.take(iter.index() + 1));
    }
    assert(more@.take(more@.len() as int) =~= more@);
}

impl MultiBufferSnapshot {
    /// The characters that indent a line like the one in a row: its indent, and the
    /// comment prefix that follows it, where comments are continued. The buffer
    /// has replied how far its line is indented, and which prefixes its language
    /// has, where comments are continued.
    pub fn indent_and_comment_for_line(
        &self,
        row: MultiBufferRow,
        of_buffer: IndentSize,
        comment_prefixes: &Option<Vec<String>>,
    ) -> (r: Vec<char>)
        requires
            self.wf(),
            ({
                let point = Point { row: row.0, column: self.shown_indent(row.0, of_buffer).len };
                &&& point.is_position(*self)
                &&& is_boundary(self.bytes(), point.offset(*self))
            }),
        ensures
            ({
                let indent = self.shown_indent(row.0, of_buffer);
                let point = Point { row: row.0, column: indent.len };
                let behind = decode_utf8(self.bytes().skip(point.offset(*self)));
                match *comment_prefixes {
                    Some(prefixes) => {
                        let k = first_prefix(behind, prefixes@, 0);
                        r@ == if k < prefixes@.len() {
                            indent.spec_chars() + prefixes@[k]@
                        } else {
                            indent.spec_chars()
                        }
                    },
                    None => r@ == indent.spec_chars(),
                }
            }),
    {
        let size = self.indent_size_for_line(row, of_buffer);
        let mut indent = size.chars();
        if let Some(prefixes) = comment_prefixes {
            let behind = self.chars_at(Point { row: row.0, column: size.len });
            proof {
                encode_utf8_decode_utf8(behind@);
            }
            let mut k: usize = 0;
            while k < prefixes.len() && !has_prefix(&behind, prefixes[k].as_str())
                invariant
                    k <= prefixes@.len(),
                    first_prefix(behind@, prefixes@, 0) == first_prefix(
                        behind@,
                        prefixes@,
                        k as int,
                    ),
                decreases prefixes@.len() - k,
            {
                k = k + 1;
            }
            if k < prefixes.len() {
                push_all(&mut indent, prefixes[k].as_str());
            }
        }
        indent
    }
}

/// The rows of one excerpt whose indents its buffer is asked for.
#[derive(Debug)]
pub struct IndentRequest {
    pub buffer_id: BufferId,
    pub excerpt_id: ExcerptId,
    /// The row at which the language's indent size is asked for, where the size of
    /// the request before does not do.
    pub indent_size_at: Option<u32>,
    /// The rows of the buffer.
    pub buffer_rows: Vec<u32>,
    pub start_buffer_row: u32,
    pub start_multibuffer_row: u32,
}

/// The mathematical value of an [`IndentRequest`].
#[verifier::ext_equal]
pub struct IndentRequestModel {
    pub buffer_id: BufferId,
    pub excerpt_id: ExcerptId,
    pub indent_size_at: Option<u32>,
    pub buffer_rows: Seq<u32>,
    pub start_buffer_row: u32,
    pub start_multibuffer_row: u32,
}

impl View for IndentRequest {
    type V = IndentRequestModel;

    open spec fn view(&self) -> IndentRequestModel {
        IndentRequestModel {
            buffer_id: self.buffer_id,
            excerpt_id: self.excerpt_id,
            indent_size_at: self.indent_size_at,
            buffer_rows: self.buffer_rows@,
            start_buffer_row: self.start_buffer_row,
            start_multibuffer_row: self.start_multibuffer_row,
        }
    }
}

/// The first row from `from` on, by its index, that does not lie before the end of
/// the `i`-th excerpt.
pub open spec fn rows_end(es: Seq<Excerpt>, i: int, rows: Seq<u32>, from: int) -> int
    decreases rows.len() - from,
{
    if from >= rows.len() {
        rows.len() as int
    } else if summarize(excerpts_text(es.take(i + 1))).lines.row > rows[from] {
        rows_end(es, i, rows, from + 1)
    } else {
        from
    }
}

/// The excerpt that shows the start of a row.
pub open spec fn row_index(es: Seq<Excerpt>, row: u32) -> int {
    seek_index(es, Point { row, column: 0 }, Bias::Right, 0)
}

/// A row of the `i`-th excerpt, in its buffer.
pub open spec fn row_in_buffer(es: Seq<Excerpt>, i: int, row: u32) -> int {
    es[i].start_pos().row + row - first_row(es, i)
}

/// What the rows from `from` to before `to` are in the buffer of the `i`-th
/// excerpt.
pub open spec fn rows_in_buffer(
    es: Seq<Excerpt>,
    i: int,
    rows: Seq<u32>,
    from: int,
    to: int,
) -> Seq<u32> {
    Seq::new((to - from) as nat, |k: int| row_in_buffer(es, i, rows[from + k]) as u32)
}

/// The requests for the rows from `from` on, `prev_row` being the first row of the
/// request before.
pub open spec fn indent_requests(
    es: Seq<Excerpt>,
    rows: Seq<u32>,
    from: int,
    prev_row: u32,
) -> Seq<IndentRequestModel>
    decreases rows.len() - from,
    when 0 <= from
{
    if from >= rows.len() {
        seq![]
    } else {
        let row = rows[from];
        let i = row_index(es, row);
        if i >= es.len() {
            indent_requests(es, rows, from + 1, prev_row)
        } else {
            proof {
                lemma_rows_end(es, i, rows, from + 1);
            }
            let to = rows_end(es, i, rows, from + 1);
            seq![indent_request(es, rows, from, to, prev_row)] + indent_requests(
                es,
                rows,
                to,
                row,
            )
        }
    }
}

/// The request for the rows from `from` to before `to`, which one excerpt shows.
pub open spec fn indent_request(
    es: Seq<Excerpt>,
    rows: Seq<u32>,
    from: int,
    to: int,
    prev_row: u32,
) -> IndentRequestModel {
    let row = rows[from];
    let i = row_index(es, row);
    let row_above = if row == 0 {
        0
    } else {
        row - 1
    };
    IndentRequestModel {
        buffer_id: es[i].buffer_id,
        excerpt_id: es[i].id,
        indent_size_at: if row_above == prev_row {
            None
        } else {
            Some(row)
        },
        buffer_rows: rows_in_buffer(es, i, rows, from, to),
        start_buffer_row: es[i].start_pos().row as u32,
        start_multibuffer_row: first_row(es, i) as u32,
    }
}

/// Whether rows that lie before the end of an earlier row's excerpt have rows in
/// its buffer.
pub open spec fn rows_fit(es: Seq<Excerpt>, rows: Seq<u32>) -> bool {
    forall|a: int, b: int|
        0 <= a <= b < rows.len() && row_index(es, rows[a]) < es.len() && summarize(
            excerpts_text(es.take(row_index(es, rows[a]) + 1)),
        ).lines.row > rows[b] ==> row_in_buffer(
            es,
            row_index(es, #[trigger] rows[a]),
            #[trigger] rows[b],
        ) >= 0
}

/// Rows that do not descend fit.
pub proof fn lemma_ascending_rows_fit(es: Seq<Excerpt>, rows: Seq<u32>)
    requires
        excerpts_wf(es),
        forall|a: int, b: int|
            0 <= a <= b < rows.len() ==> #[trigger] rows[a] <= #[trigger] rows[b],
    ensures
        rows_fit(es, rows),
{
    assert forall|a: int, b: int|
        0 <= a <= b < rows.len() && row_index(es, rows[a]) < es.len() && summarize(
            excerpts_text(es.take(row_index(es, rows[a]) + 1)),
        ).lines.row > rows[b] implies row_in_buffer(
        es,
        row_index(es, #[trigger] rows[a]),
        #[trigger] rows[b],
    ) >= 0 by {
        lemma_seek_point(es, Point { row: rows[a], column: 0 }, Bias::Right);
        lemma_excerpt_rows(es, row_index(es, rows[a]));
        assert(rows[a] <= rows[b]);
    }
}

pub proof fn lemma_rows_end(es: Seq<Excerpt>, i: int, rows: Seq<u32>, from: int)
    requires
        0 <= from <= rows.len(),
    ensures
        from <= rows_end(es, i, rows, from) <= rows.len(),
    decreases rows.len() - from,
{
    if from < rows.len() {
        lemma_rows_end(es, i, rows, from + 1);
    }
}

impl MultiBufferSnapshot {
    /// Which buffers to ask for the indents of rows, excerpt by excerpt.
    pub fn suggested_indent_requests(&self, rows: &Vec<u32>) -> (r: Vec<IndentRequest>)
        requires
            self.wf(),
            rows_fit(self.excerpts@, rows@),
        ensures
            models_of(r@) == indent_requests(
                self.excerpts@,
                rows@,
                0,
                u32::MAX,
            ),
    {
        let ghost es = self.excerpts@;
        let ghost all = indent_requests(es, rows@, 0, u32::MAX);
        let mut requests: Vec<IndentRequest> = Vec::new();
        let mut prev_row: u32 = u32::MAX;
        let mut k: usize = 0;
        assert(models_of(requests@) + all =~= all);
        while k < rows.len()
            invariant
                self.wf(),
                rows_fit(es, rows@),
                es == self.excerpts@,
                k <= rows@.len(),
                models_of(requests@) + indent_requests(es, rows@, k as int, prev_row) == all,
            decreases rows@.len() - k,
        {
            let row: u32 = rows[k];
            let ghost before = models_of(requests@);
            let cursor = self.seek(&Point { row, column: 0 }, Bias::Right);
            if cursor.index < self.excerpts.len() {
                let ghost i = cursor.index as int;
                proof {
                    lemma_rows_end(es, i, rows@, k + 1);
                }
                let (request, next) = self.indent_request_at(rows, k, &cursor, prev_row);
                let ghost old_prev = prev_row;
                prev_row = row;
                requests.push(request);
                proof {
                    assert(models_of(requests@) =~= before.push(request@));
                    assert(models_of(requests@) + indent_requests(es, rows@, next as int, row)
                        =~= before + indent_requests(es, rows@, k as int, old_prev));
                }
                k = next;
            } else {
                k = k + 1;
            }
        }
        assert(models_of(requests@) + Seq::<IndentRequestModel>::empty() =~= models_of(
            requests@,
        ));
        requests
    }

    /// The request for the rows from the `k`-th on that one excerpt shows, and the
    /// index of the first row that it does not show.
    fn indent_request_at(
        &self,
        rows: &Vec<u32>,
        k: usize,
        cursor: &Cursor,
        prev_row: u32,
    ) -> (r: (IndentRequest, usize))
        requires
            self.wf(),
            rows_fit(self.excerpts@, rows@),
            k < rows@.len(),
            cursor.wf(self.excerpts@),
            cursor.index == row_index(self.excerpts@, rows@[k as int]),
            cursor.index < self.excerpts@.len(),
        ensures
            r.1 == rows_end(self.excerpts@, cursor.index as int, rows@, k + 1),
            k < r.1 <= rows@.len(),
            r.0@ == indent_request(self.excerpts@, rows@, k as int, r.1 as int, prev_row),
    {
        let ghost es = self.excerpts@;
        let ghost i = cursor.index as int;
        let row: u32 = rows[k];
        let excerpt = &self.excerpts[cursor.index];
        let end_row: u32 = self.cursor_end(cursor).lines.row;
        proof {
            lemma_seek_point(es, Point { row, column: 0 }, Bias::Right);
            lemma_excerpt_rows(es, i);
            lemma_summary_sound(excerpts_text(es.take(i + 1)));
            assert(es[i].wf());
            lemma_summary_sound(es[i].buffer.bytes().take(es[i].start()));
            lemma_excerpts_text_split(es, i + 1);
        }
        let start_buffer_row: u32 = excerpt.buffer_start_point().row;
        let start_multibuffer_row: u32 = cursor.start.lines.row;
        let mut buffer_rows: Vec<u32> = Vec::new();
        buffer_rows.push(start_buffer_row + (row - start_multibuffer_row));
        assert(k < rows.len());
        let mut next: usize = k + 1;
        assert(buffer_rows@ =~= rows_in_buffer(es, i, rows@, k as int, next as int));
        while next < rows.len() && end_row > rows[next]
            invariant
                rows_fit(es, rows@),
                k < next <= rows@.len(),
                row == rows@[k as int],
                i == row_index(es, row),
                0 <= i < es.len(),
                start_multibuffer_row == first_row(es, i),
                start_buffer_row == es[i].start_pos().row,
                start_buffer_row <= MAX_TEXT_LEN,
                end_row <= MAX_TEXT_LEN,
                end_row == summarize(excerpts_text(es.take(i + 1))).lines.row,
                rows_end(es, i, rows@, k + 1) == rows_end(es, i, rows@, next as int),
                buffer_rows@ == rows_in_buffer(es, i, rows@, k as int, next as int),
            decreases rows@.len() - next,
        {
            assert(row_in_buffer(es, row_index(es, rows@[k as int]), rows@[next as int]) >= 0);
            buffer_rows.push(start_buffer_row + rows[next] - start_multibuffer_row);
            next = next + 1;
            assert(buffer_rows@ =~= rows_in_buffer(es, i, rows@, k as int, next as int));
        }
        (
            IndentRequest {
                buffer_id: excerpt.buffer_id,
                excerpt_id: excerpt.id,
                indent_size_at: if row.saturating_sub(1) == prev_row {
                    None
                } else {
                    Some(row)
                },
                buffer_rows,
                start_buffer_row,
                start_multibuffer_row,
            },
            next,
        )
    }
}

/// The values of requests.
pub open spec fn models_of(requests: Seq<IndentRequest>) -> Seq<IndentRequestModel> {
    requests.map_values(|request: IndentRequest| request@)
}

/// Where a row of a request's buffer is shown.
pub open spec fn shown_row(request: IndentRequestModel, row: u32) -> int {
    request.start_multibuffer_row + row - request.start_buffer_row
}

/// The indents with those that the first `n` entries of a reply add.
pub open spec fn with_reply(
    indents: Map<u32, IndentSize>,
    request: IndentRequestModel,
    reply: Seq<(u32, IndentSize)>,
    n: int,
) -> Map<u32, IndentSize>
    decreases n,
{
    if n <= 0 {
        indents
    } else {
        with_reply(indents, request, reply, n - 1).insert(
            shown_row(request, reply[n - 1].0) as u32,
            reply[n - 1].1,
        )
    }
}

/// The indents that the replies to the first `n` requests give.
pub open spec fn indents_of(
    requests: Seq<IndentRequest>,
    replies: Seq<Vec<(u32, IndentSize)>>,
    n: int,
) -> Map<u32, IndentSize>
    decreases n,
{
    if n <= 0 {
        Map::empty()
    } else {
        with_reply(
            indents_of(requests, replies, n - 1),
            requests[n - 1]@,
            replies[n - 1]@,
            replies[n - 1]@.len() as int,
        )
    }
}

/// Whether a reply speaks of rows that the request's excerpt can show.
pub open spec fn reply_fits(request: IndentRequestModel, reply: Seq<(u32, IndentSize)>) -> bool {
    forall|k: int|
        0 <= k < reply.len() ==> 0 <= shown_row(request, (#[trigger] reply[k]).0) <= u32::MAX
            && request.start_multibuffer_row + reply[k].0 <= u32::MAX
}

/// The indents of rows, by row. The buffers have replied to the requests, each with
/// rows and their indents.
pub fn suggested_indents(
    requests: &Vec<IndentRequest>,
    replies: &Vec<Vec<(u32, IndentSize)>>,
) -> (r: BTreeMap<u32, IndentSize>)
    requires
        requests@.len() == replies@.len(),
        forall|k: int|
            0 <= k < requests@.len() ==> reply_fits(
                (#[trigger] requests@[k])@,
                replies@[k]@,
            ),
    ensures
        r@ == indents_of(requests@, replies@, requests@.len() as int),
{
    broadcast use vstd::std_specs::btree::group_btree_axioms;

    let mut indents: BTreeMap<u32, IndentSize> = BTreeMap::new();
    let mut k: usize = 0;
    assert(indents@ =~= Map::empty());
    while k < requests.len()
        invariant
            k <= requests@.len(),
            requests@.len() == replies@.len(),
            forall|k: int|
                0 <= k < requests@.len() ==> reply_fits(
                    (#[trigger] requests@[k])@,
                    replies@[k]@,
                ),
            indents@ == indents_of(requests@, replies@, k as int),
        decreases requests@.len() - k,
    {
        let request = &requests[k];
        let reply = &replies[k];
        let ghost before = indents@;
        assert(reply_fits(requests@[k as int]@, replies@[k as int]@));
        let mut n: usize = 0;
        while n < reply.len()
            invariant
                n <= reply@.len(),
                reply_fits(request@, reply@),
                indents@ == with_reply(before, request@, reply@, n as int),
            decreases reply@.len() - n,
        {
            let (row, size) = reply[n];
            assert(0 <= shown_row(request@, reply@[n as int].0) <= u32::MAX);
            let shown: u32 = request.start_multibuffer_row + row - request.start_buffer_row;
            indents.insert(shown, size);
            n = n + 1;
        }
        k = k + 1;
    }
    indents
}

} // verus!
