//! What holds of the indents of a multibuffer.

use vstd::prelude::*;

use crate::excerpt::{
    excerpt_start, excerpts_text, lemma_excerpt_position, lemma_text_within, Excerpt,
};
use crate::snapshot::indents::{
    first_prefix, indent_request, indent_requests, indents_of, lemma_rows_end, row_in_buffer,
    row_index, rows_end, shown_row, starts_with, with_reply, IndentRequest, IndentRequestModel,
    IndentSize,
};
use crate::snapshot::line_laws::lemma_rows_grow;
use crate::snapshot::lines::{first_row, lemma_excerpt_rows};
use crate::snapshot::{excerpts_wf, lemma_seek_point, MultiBufferSnapshot};
use crate::text::{lemma_summary_sound, point_at, summarize, Bias, Point};

verus! {

impl MultiBufferSnapshot {
    /// The bytes of a row are those of the line in the text.
    pub proof fn lemma_line_bytes(&self, row: u32)
        requires
            self.wf(),
            self.line_index(row) < self.excerpts@.len(),
        ensures
            ({
                let es = self.excerpts@;
                let i = self.line_index(row);
                let start = excerpt_start(es, i) + self.line_start_in_buffer(i, row as int)
                    - es[i].start();
                &&& 0 <= start
                &&& start + self.len_of_line(row) <= self.bytes().len()
                &&& self.line_bytes(row) == self.bytes().subrange(
                    start,
                    start + self.len_of_line(row),
                )
            }),
    {
        let es = self.excerpts@;
        let i = self.line_index(row);
        self.lemma_line(row);
        self.lemma_line_in_text(row);
        assert(es[i].wf());
        lemma_excerpt_position(es[i], 0);
        let a = self.line_start_in_buffer(i, row as int) - es[i].start();
        let b = self.line_end_in_buffer(i, row as int) - es[i].start();
        lemma_text_within(es, i, a, b);
        assert(es[i].text().subrange(a, b) =~= self.line_bytes(row));
    }

    /// The nearest row before another that holds more than white space is one that does,
    /// and all between the two hold none.
    pub proof fn lemma_row_before(&self, row: int)
        requires
            0 <= row <= u32::MAX,
        ensures
            ({
                let r = self.row_before(row);
                &&& -1 <= r < row || row == 0 && r == -1
                &&& r >= 0 ==> !self.line_is_blank(r as u32)
                &&& forall|k: int|
                    r < k < row ==> #[trigger] self.line_is_blank(k as u32)
            }),
        decreases row,
    {
        if row > 0 && self.line_is_blank((row - 1) as u32) {
            self.lemma_row_before(row - 1);
            let r = self.row_before(row);
            assert forall|k: int| r < k < row implies #[trigger] self.line_is_blank(k as u32) by {
                if k < row - 1 {
                    assert(self.line_is_blank(k as u32));
                }
            }
        }
    }

    /// Of the indent of a line as much is shown as lies in the part of the line that is
    /// shown, and of the same kind.
    pub proof fn lemma_shown_indent(&self, row: u32, of_buffer: IndentSize)
        requires
            self.wf(),
            self.line_index(row) < self.excerpts@.len(),
        ensures
            ({
                let i = self.line_index(row);
                let t = self.excerpts@[i].buffer.bytes();
                let r = self.shown_indent(row, of_buffer);
                let start = point_at(
                    t,
                    self.line_start_in_buffer(i, row as int),
                ).column;
                &&& r.kind == of_buffer.kind
                &&& 0 <= r.len <= self.len_of_line(row)
                &&& of_buffer.len <= start ==> r.len == 0
                &&& start <= of_buffer.len <= start + self.len_of_line(row) ==> r.len
                    == of_buffer.len - start
                &&& of_buffer.len >= start + self.len_of_line(row) ==> r.len == self.len_of_line(
                    row,
                )
            }),
    {
        let i = self.line_index(row);
        self.lemma_line(row);
        let t = self.excerpts@[i].buffer.bytes();
        lemma_summary_sound(t.take(self.line_start_in_buffer(i, row as int)));
        lemma_summary_sound(t.take(self.line_end_in_buffer(i, row as int)));
    }
}

/// The comment prefix that is continued is the first that the text starts with.
pub proof fn lemma_first_prefix(text: Seq<char>, prefixes: Seq<String>, from: int)
    requires
        0 <= from <= prefixes.len(),
    ensures
        ({
            let k = first_prefix(text, prefixes, from);
            &&& from <= k <= prefixes.len()
            &&& k < prefixes.len() ==> prefixes[k]@.len() <= text.len() && text.take(
                prefixes[k]@.len() as int,
            ) == prefixes[k]@
            &&& forall|j: int|
                from <= j < k ==> !((#[trigger] prefixes[j])@.len() <= text.len() && text.take(
                    prefixes[j]@.len() as int,
                ) == prefixes[j]@)
        }),
    decreases prefixes.len() - from,
{
    if from < prefixes.len() && !starts_with(text, prefixes[from]@) {
        lemma_first_prefix(text, prefixes, from + 1);
    }
}

proof fn lemma_rows_end_before(es: Seq<Excerpt>, i: int, rows: Seq<u32>, from: int)
    requires
        0 <= from <= rows.len(),
    ensures
        ({
            let to = rows_end(es, i, rows, from);
            &&& from <= to <= rows.len()
            &&& forall|a: int|
                from <= a < to ==> (#[trigger] rows[a]) < summarize(
                    excerpts_text(es.take(i + 1)),
                ).lines.row
        }),
    decreases rows.len() - from,
{
    if from < rows.len() && summarize(excerpts_text(es.take(i + 1))).lines.row > rows[from] {
        lemma_rows_end_before(es, i, rows, from + 1);
    }
}

/// Rows behind one that an excerpt shows are shown by the same excerpt, as long as they lie
/// before its end.
proof fn lemma_same_row_index(es: Seq<Excerpt>, a: u32, b: u32)
    requires
        excerpts_wf(es),
        a <= b,
        row_index(es, a) < es.len(),
        b < summarize(excerpts_text(es.take(row_index(es, a) + 1))).lines.row,
    ensures
        row_index(es, b) == row_index(es, a),
{
    let i = row_index(es, a);
    let j = row_index(es, b);
    lemma_seek_point(es, Point { row: a, column: 0 }, Bias::Right);
    lemma_seek_point(es, Point { row: b, column: 0 }, Bias::Right);
    lemma_excerpt_rows(es, i);
    if j < i {
        lemma_rows_grow(es, j + 1, i);
        lemma_excerpt_rows(es, j);
    }
    if i < j {
        lemma_rows_grow(es, i + 1, j);
    }
}

/// Whether a request asks for a row that the `i`-th excerpt shows, as its `k`-th.
pub open spec fn asks_for_row(
    es: Seq<Excerpt>,
    request: IndentRequestModel,
    k: int,
    i: int,
    row: u32,
) -> bool {
    &&& 0 <= i < es.len()
    &&& request.buffer_id == es[i].buffer_id
    &&& request.excerpt_id == es[i].id
    &&& 0 <= k < request.buffer_rows.len()
    &&& request.buffer_rows[k] == es[i].start_pos().row + row - first_row(es, i)
    &&& shown_row(request, request.buffer_rows[k]) == row
}

/// For rows that do not descend, the buffer of the excerpt that shows a row is asked for
/// it; and what it replies for that row of its own is taken for the row.
#[verifier::rlimit(50)]
pub proof fn lemma_row_asked_for(
    es: Seq<Excerpt>,
    rows: Seq<u32>,
    from: int,
    prev_row: u32,
    a: int,
) -> (r: (int, int))
    requires
        excerpts_wf(es),
        0 <= from <= a < rows.len(),
        forall|x: int, y: int|
            0 <= x <= y < rows.len() ==> #[trigger] rows[x] <= #[trigger] rows[y],
        row_index(es, rows[a]) < es.len(),
    ensures
        0 <= r.0 < indent_requests(es, rows, from, prev_row).len(),
        asks_for_row(
            es,
            indent_requests(es, rows, from, prev_row)[r.0],
            r.1,
            row_index(es, rows[a]),
            rows[a],
        ),
    decreases rows.len() - from,
{
    let row = rows[from];
    let i = row_index(es, row);
    let all = indent_requests(es, rows, from, prev_row);
    lemma_seek_point(es, Point { row, column: 0 }, Bias::Right);
    if i >= es.len() {
        lemma_row_asked_for(es, rows, from + 1, prev_row, a)
    } else {
        lemma_rows_end(es, i, rows, from + 1);
        lemma_rows_end_before(es, i, rows, from + 1);
        let to = rows_end(es, i, rows, from + 1);
        let request = indent_request(es, rows, from, to, prev_row);
        let rest = indent_requests(es, rows, to, row);
        assert(all == seq![request] + rest);
        if a < to {
            if from < a {
                assert(rows[from] <= rows[a]);
                lemma_same_row_index(es, row, rows[a]);
            }
            lemma_seek_point(es, Point { row: rows[a], column: 0 }, Bias::Right);
            lemma_excerpt_rows(es, i);
            assert(es[i].wf());
            lemma_summary_sound(es[i].buffer.bytes().take(es[i].end()));
            assert(request.buffer_rows[a - from] == row_in_buffer(es, i, rows[a]) as u32);
            let lines = summarize(excerpts_text(es.take(i + 1))).lines;
            assert(rows[a] <= lines.row);
            (0, a - from)
        } else {
            let (q, k) = lemma_row_asked_for(es, rows, to, row, a);
            assert(all[q + 1] == rest[q]);
            (q + 1, k)
        }
    }
}

/// Whether the `n`-th entry of the reply to the `k`-th request is of a row.
pub open spec fn replies_for(
    requests: Seq<IndentRequest>,
    replies: Seq<Vec<(u32, IndentSize)>>,
    k: int,
    n: int,
    row: u32,
) -> bool {
    &&& 0 <= k < requests.len()
    &&& 0 <= n < replies[k]@.len()
    &&& requests[k].start_multibuffer_row + replies[k]@[n].0 - requests[k].start_buffer_row == row
}

proof fn lemma_with_reply(
    indents: Map<u32, IndentSize>,
    request: IndentRequestModel,
    reply: Seq<(u32, IndentSize)>,
    n: int,
    row: u32,
)
    requires
        0 <= n <= reply.len(),
        forall|k: int|
            0 <= k < reply.len() ==> 0 <= shown_row(request, (#[trigger] reply[k]).0) <= u32::MAX,
    ensures
        ({
            let r = with_reply(indents, request, reply, n);
            &&& r.dom().contains(row) <==> indents.dom().contains(row) || exists|k: int|
                0 <= k < n && shown_row(request, (#[trigger] reply[k]).0) == row
            &&& (forall|k: int| 0 <= k < n ==> shown_row(request, (#[trigger] reply[k]).0) != row)
                ==> r[row] == indents[row]
            &&& forall|k: int|
                0 <= k < n && shown_row(request, (#[trigger] reply[k]).0) == row && (forall|j: int|
                    k < j < n ==> shown_row(request, (#[trigger] reply[j]).0) != row) ==> r[row]
                    == reply[k].1
        }),
    decreases n,
{
    if n > 0 {
        lemma_with_reply(indents, request, reply, n - 1, row);
        let before = with_reply(indents, request, reply, n - 1);
        let r = with_reply(indents, request, reply, n);
        let at = shown_row(request, reply[n - 1].0);
        assert(0 <= at <= u32::MAX);
        assert(r == before.insert(at as u32, reply[n - 1].1));
        if at != row {
            assert(at as u32 != row);
        }
        assert forall|k: int|
            0 <= k < n && shown_row(request, (#[trigger] reply[k]).0) == row && (forall|j: int|
                k < j < n ==> shown_row(request, (#[trigger] reply[j]).0) != row) implies r[row]
            == reply[k].1 by {
            if k < n - 1 {
                assert(shown_row(request, reply[n - 1].0) != row);
            }
        }
    }
}

/// A row has an indent just where a buffer replied one for it, and it has the last that was
/// replied.
#[verifier::rlimit(50)]
pub proof fn lemma_indents(
    requests: Seq<IndentRequest>,
    replies: Seq<Vec<(u32, IndentSize)>>,
    m: int,
    row: u32,
)
    requires
        requests.len() == replies.len(),
        0 <= m <= requests.len(),
        forall|k: int, n: int|
            0 <= k < requests.len() && 0 <= n < replies[k]@.len() ==> 0 <= shown_row(
                (#[trigger] requests[k])@,
                (#[trigger] replies[k]@[n]).0,
            ) <= u32::MAX,
    ensures
        ({
            let r = indents_of(requests, replies, m);
            &&& r.dom().contains(row) <==> exists|k: int, n: int|
                k < m && #[trigger] replies_for(requests, replies, k, n, row)
            &&& forall|k: int, n: int|
                k < m && #[trigger] replies_for(requests, replies, k, n, row) && (forall|
                    l: int,
                    p: int,
                |
                    l < m && #[trigger] replies_for(requests, replies, l, p, row) ==> l < k || l
                        == k && p <= n) ==> r[row] == replies[k]@[n].1
        }),
    decreases m,
{
    if m > 0 {
        lemma_indents(requests, replies, m - 1, row);
        let before = indents_of(requests, replies, m - 1);
        let r = indents_of(requests, replies, m);
        let request = requests[m - 1]@;
        let reply = replies[m - 1]@;
        let len = reply.len() as int;
        assert forall|k: int| 0 <= k < len implies 0 <= shown_row(
            request,
            (#[trigger] reply[k]).0,
        ) <= u32::MAX by {
            assert(requests[m - 1]@ == request);
            assert(replies[m - 1]@[k] == reply[k]);
        }
        lemma_with_reply(before, request, reply, len, row);
        assert forall|k: int| 0 <= k < len implies (shown_row(request, (#[trigger] reply[k]).0)
            == row <==> replies_for(requests, replies, m - 1, k, row)) by {}
        if r.dom().contains(row) {
            if before.dom().contains(row) {
                let (k, n) = choose|k: int, n: int|
                    k < m - 1 && #[trigger] replies_for(requests, replies, k, n, row);
                assert(replies_for(requests, replies, k, n, row));
            } else {
                let k = choose|k: int|
                    0 <= k < len && shown_row(request, (#[trigger] reply[k]).0) == row;
                assert(replies_for(requests, replies, m - 1, k, row));
            }
        }
        if exists|k: int, n: int| k < m && #[trigger] replies_for(requests, replies, k, n, row) {
            let (k, n) = choose|k: int, n: int|
                k < m && #[trigger] replies_for(requests, replies, k, n, row);
            if k == m - 1 {
                assert(shown_row(request, reply[n].0) == row);
            } else {
                assert(replies_for(requests, replies, k, n, row));
            }
        }
        assert forall|k: int, n: int|
            k < m && #[trigger] replies_for(requests, replies, k, n, row) && (forall|
                l: int,
                p: int,
            |
                l < m && #[trigger] replies_for(requests, replies, l, p, row) ==> l < k || l == k
                    && p <= n) implies r[row] == replies[k]@[n].1 by {
            if k == m - 1 {
                assert(shown_row(request, reply[n].0) == row);
                assert forall|j: int| n < j < len implies shown_row(
                    request,
                    (#[trigger] reply[j]).0,
                ) != row by {
                    if shown_row(request, reply[j].0) == row {
                        assert(replies_for(requests, replies, m - 1, j, row));
                    }
                }
            } else {
                assert forall|j: int| 0 <= j < len implies shown_row(
                    request,
                    (#[trigger] reply[j]).0,
                ) != row by {
                    if shown_row(request, reply[j].0) == row {
                        assert(replies_for(requests, replies, m - 1, j, row));
                    }
                }
                assert(r[row] == before[row]);
            }
        }
    }
}

} // verus!
