//! What holds of the lines and the words of a multibuffer.

use vstd::prelude::*;

use crate::excerpt::{
    excerpt_start, excerpts_text, lemma_excerpt_position, lemma_excerpt_start_grows,
    lemma_excerpts_text_split, lemma_excerpts_text_step, lemma_text_within, Excerpt,
};
use crate::snapshot::convert::{lemma_summary_before, lemma_summary_within};
use crate::snapshot::lines::{
    first_row, last_row, lemma_excerpt_rows, starting_past_row, widest_row,
};
use crate::snapshot::rows::rows_of;
use crate::snapshot::words::{run_of, word_kind, CharKind};
use crate::snapshot::{excerpts_wf, lemma_seek_point, seek_index, MultiBufferSnapshot};
use crate::text::{
    lemma_positions_grow, lemma_summary_sound, point_at, summarize, Bias, Point, Pos, NEWLINE,
};

verus! {

/// The byte that stands at an offset in an excerpt, in the text and in the buffer.
proof fn lemma_byte_shown(es: Seq<Excerpt>, i: int, k: int)
    requires
        excerpts_wf(es),
        0 <= i < es.len(),
        0 <= k < es[i].text().len(),
    ensures
        excerpt_start(es, i) + k < excerpts_text(es).len(),
        excerpts_text(es)[excerpt_start(es, i) + k] == es[i].text()[k],
        k < es[i].bytes().len() ==> es[i].text()[k] == es[i].buffer.bytes()[es[i].start() + k],
        k == es[i].bytes().len() ==> es[i].text()[k] == NEWLINE,
{
    assert(es[i].wf());
    lemma_excerpt_position(es[i], 0);
    lemma_excerpts_text_split(es, i + 1);
    lemma_excerpts_text_step(es, i);
    lemma_text_within(es, i, k, k + 1);
    let o = excerpt_start(es, i) + k;
    assert(excerpts_text(es).subrange(o, o + 1)[0] == excerpts_text(es)[o]);
    assert(es[i].text().subrange(k, k + 1)[0] == es[i].text()[k]);
}

impl MultiBufferSnapshot {
    /// A row that an excerpt is found for is a row of the text: what the excerpt shows of
    /// it starts at its first column and ends at a line break or the end of the text. So
    /// the length of a row is that of the line in the text.
    #[verifier::rlimit(50)]
    pub proof fn lemma_line_in_text(&self, row: u32)
        requires
            self.wf(),
            self.line_index(row) < self.excerpts@.len(),
        ensures
            ({
                let es = self.excerpts@;
                let t = self.bytes();
                let i = self.line_index(row);
                let start = excerpt_start(es, i) + self.line_start_in_buffer(i, row as int)
                    - es[i].start();
                let end = start + self.len_of_line(row);
                &&& 0 <= start <= end <= t.len()
                &&& point_at(t, start) == (Pos { row: row as int, column: 0 })
                &&& point_at(t, end).row == row
                &&& end == t.len() || t[end] == NEWLINE
            }),
    {
        let es = self.excerpts@;
        let n = es.len() as int;
        let t = self.bytes();
        let i = self.line_index(row);
        self.lemma_line(row);
        let e = es[i];
        assert(e.wf());
        lemma_excerpt_position(e, 0);
        lemma_excerpt_rows(es, i);
        let b = e.buffer.bytes();
        let a = self.line_start_in_buffer(i, row as int) - e.start();
        let z = self.line_end_in_buffer(i, row as int) - e.start();
        lemma_summary_within(es, i, a);
        lemma_summary_within(es, i, z);
        lemma_excerpts_text_step(es, i);
        lemma_excerpt_start_grows(es, i + 1, n);
        assert(es.take(n) =~= es);
        let brow = self.buffer_row(i, row as int);
        if a == 0 {
            assert(e.bytes().take(0) =~= Seq::<u8>::empty());
            reveal(summarize);
            assert(point_at(t, excerpt_start(es, i)) == (Pos {
                row: first_row(es, i),
                column: 0,
            }));
        }
        lemma_summary_sound(b.take(e.end()));
        lemma_summary_sound(b.take(b.len() as int));
        if e.end() < b.len() {
            lemma_positions_grow(b, e.end(), b.len() as int);
        }
        e.buffer.lemma_row(brow as u32);
        if z < e.bytes().len() {
            lemma_byte_shown(es, i, z);
        } else if i < n - 1 {
            assert(e.has_trailing_newline);
            lemma_byte_shown(es, i, z);
        } else {
            assert(e.text() =~= e.bytes());
        }
    }

    /// An excerpt is found for every row of the text, and for no other.
    pub proof fn lemma_line_found(&self, row: u32)
        requires
            self.wf(),
            self.excerpts@.len() > 0,
        ensures
            self.line_index(row) < self.excerpts@.len() <==> row <= point_at(
                self.bytes(),
                self.bytes().len() as int,
            ).row,
    {
        let es = self.excerpts@;
        let n = es.len() as int;
        let t = self.bytes();
        let point = Point { row, column: 0 };
        let i = seek_index(es, point, Bias::Right, 0);
        assert(t.take(t.len() as int) =~= t);
        lemma_seek_point(es, point, Bias::Right);
        assert(es.take(n) =~= es);
        lemma_summary_sound(t);
        if i < n {
            lemma_summary_before(es, i + 1);
            if excerpt_start(es, i + 1) < t.len() {
                lemma_positions_grow(t, excerpt_start(es, i + 1), t.len() as int);
            }
        }
    }

    /// The excerpts of selected rows are those that have a row among them: every excerpt
    /// but the last does just where it ends no earlier than the first row and starts no
    /// later than the last.
    pub proof fn lemma_selected_rows(&self, start_row: u32, end_row: u32, m: int)
        requires
            self.wf(),
            0 <= m < self.excerpts@.len() - 1,
        ensures
            ({
                let es = self.excerpts@;
                let from = seek_index(es, Point { row: start_row, column: 0 }, Bias::Right, 0);
                let to = starting_past_row(es, end_row as int, from);
                from <= m < to <==> start_row <= last_row(es, m) && first_row(es, m) <= end_row
            }),
    {
        let es = self.excerpts@;
        let n = es.len() as int;
        let point = Point { row: start_row, column: 0 };
        let from = seek_index(es, point, Bias::Right, 0);
        lemma_seek_point(es, point, Bias::Right);
        lemma_starting_past_row(es, end_row as int, from);
        lemma_excerpt_rows(es, m);
        if m < from {
            lemma_rows_grow(es, m + 1, from);
        } else {
            lemma_rows_grow(es, from + 1, m + 1);
        }
    }

    /// The rows of the buffers that are shown go on from the row of the buffer that is shown
    /// in the row: for an offset in an excerpt, from the row that the buffer has there.
    #[verifier::rlimit(50)]
    pub proof fn lemma_rows_shown(&self, i: int, k: int)
        requires
            self.wf(),
            0 <= i < self.excerpts@.len(),
            0 <= k <= self.excerpts@[i].bytes().len(),
        ensures
            ({
                let es = self.excerpts@;
                let row = point_at(self.bytes(), excerpt_start(es, i) + k).row;
                let rows = rows_of(es[i]);
                &&& self.rows_index(row as u32) == i
                &&& rows.start + row - first_row(es, i) == point_at(
                    es[i].buffer.bytes(),
                    es[i].start() + k,
                ).row
                &&& rows.start == point_at(es[i].buffer.bytes(), es[i].start()).row
                &&& rows.end == point_at(es[i].buffer.bytes(), es[i].end()).row + 1
            }),
    {
        let es = self.excerpts@;
        let n = es.len() as int;
        let t = self.bytes();
        let o = excerpt_start(es, i) + k;
        let e = es[i];
        assert(e.wf());
        lemma_excerpt_position(e, 0);
        lemma_summary_within(es, i, k);
        lemma_excerpt_rows(es, i);
        lemma_summary_sound(t.take(o));
        lemma_summary_sound(e.buffer.bytes().take(e.start()));
        lemma_summary_sound(e.buffer.bytes().take(e.end()));
        lemma_summary_sound(e.bytes());
        let row = point_at(t, o).row;
        let point = Point { row: row as u32, column: 0 };
        let j = seek_index(es, point, Bias::Right, 0);
        lemma_seek_point(es, point, Bias::Right);
        lemma_excerpts_text_step(es, i);
        lemma_excerpt_start_grows(es, i + 1, n);
        assert(es.take(n) =~= es);
        let all = e.bytes().len() as int;
        assert(e.bytes().take(all) =~= e.bytes());
        if k < all {
            lemma_positions_grow(t, o, excerpt_start(es, i) + all);
            lemma_summary_within(es, i, all);
        }
        assert(first_row(es, i) <= row <= last_row(es, i));
        if j < i {
            lemma_rows_grow(es, j + 1, i);
            lemma_excerpt_rows(es, j);
        }
        if i < j {
            lemma_rows_grow(es, i + 1, j);
            if j == n && i < n - 1 {
                lemma_rows_grow(es, i + 1, n - 1);
            }
        }
    }
}

proof fn lemma_starting_past_row(es: Seq<Excerpt>, row: int, from: int)
    requires
        0 <= from <= es.len(),
        excerpts_wf(es),
    ensures
        ({
            let to = starting_past_row(es, row, from);
            &&& from <= to <= es.len()
            &&& forall|m: int| from <= m < to ==> #[trigger] first_row(es, m) <= row
            &&& forall|m: int| to <= m < es.len() ==> #[trigger] first_row(es, m) > row
        }),
    decreases es.len() - from,
{
    if from < es.len() {
        if first_row(es, from) > row {
            assert forall|m: int| from <= m < es.len() implies #[trigger] first_row(es, m)
                > row by {
                lemma_rows_grow(es, from, m);
            }
        } else {
            lemma_starting_past_row(es, row, from + 1);
        }
    }
}

/// Later excerpts start in later rows.
pub proof fn lemma_rows_grow(es: Seq<Excerpt>, a: int, b: int)
    requires
        excerpts_wf(es),
        0 <= a <= b <= es.len(),
    ensures
        first_row(es, a) <= first_row(es, b),
        a < b < es.len() ==> first_row(es, a) < first_row(es, b),
        a < b < es.len() ==> last_row(es, a) < first_row(es, b),
{
    let t = excerpts_text(es);
    lemma_summary_before(es, a);
    lemma_summary_before(es, b);
    lemma_excerpt_start_grows(es, a, b);
    if excerpt_start(es, a) < excerpt_start(es, b) {
        lemma_positions_grow(t, excerpt_start(es, a), excerpt_start(es, b));
    }
    if a < b && b < es.len() {
        lemma_excerpt_rows(es, a);
        lemma_summary_before(es, a + 1);
        lemma_excerpt_start_grows(es, a + 1, b);
        if excerpt_start(es, a + 1) < excerpt_start(es, b) {
            lemma_positions_grow(t, excerpt_start(es, a + 1), excerpt_start(es, b));
        }
    }
}

/// The widest row is the last row of a buffer that some excerpt shows, and none shows a
/// later one.
pub proof fn lemma_widest_row(es: Seq<Excerpt>)
    ensures
        forall|i: int| 0 <= i < es.len() ==> (#[trigger] es[i]).max_buffer_row <= widest_row(es),
        es.len() == 0 ==> widest_row(es) == 0,
        es.len() > 0 ==> exists|i: int|
            0 <= i < es.len() && (#[trigger] es[i]).max_buffer_row == widest_row(es),
    decreases es.len(),
{
    if es.len() > 0 {
        let front = es.drop_last();
        let n = front.len() as int;
        lemma_widest_row(front);
        assert(es[n] == es.last());
        assert forall|i: int| 0 <= i < es.len() implies (#[trigger] es[i]).max_buffer_row
            <= widest_row(es) by {
            if i < n {
                assert(front[i].max_buffer_row <= widest_row(front));
            }
        }
        if es.last().max_buffer_row > widest_row(front) || n == 0 {
            assert(es[n].max_buffer_row == widest_row(es));
        } else {
            let i = choose|i: int|
                0 <= i < front.len() && (#[trigger] front[i]).max_buffer_row == widest_row(front);
            assert(es[i].max_buffer_row == widest_row(es));
        }
    }
}

/// A word reaches as far as characters are of its kind, and never over a line break; and no
/// further.
pub proof fn lemma_run(
    chars: Seq<char>,
    kinds: Seq<CharKind>,
    kind: Option<CharKind>,
    from: int,
)
    requires
        0 <= from,
    ensures
        ({
            let n = run_of(chars, kinds, kind, from);
            &&& 0 <= n
            &&& n > 0 ==> from + n <= chars.len() && from + n <= kinds.len()
            &&& forall|k: int|
                from <= k < from + n ==> Some(#[trigger] kinds[k]) == kind && chars[k] != '\n'
            &&& from + n < chars.len() && from + n < kinds.len() ==> Some(kinds[from + n]) != kind
                || chars[from + n] == '\n'
        }),
    decreases chars.len() - from,
{
    if from < chars.len() && from < kinds.len() && Some(kinds[from]) == kind && chars[from]
        != '\n' {
        lemma_run(chars, kinds, kind, from + 1);
    }
}

/// The kind of a word is that of the character before it or behind it: letters before
/// punctuation, and both before white space.
pub proof fn lemma_word_kind(before: Seq<CharKind>, after: Seq<CharKind>)
    ensures
        ({
            let kind = word_kind(before, after);
            &&& kind is None <==> before.len() == 0 && after.len() == 0
            &&& kind is Some ==> (before.len() > 0 && kind->0 == before[0]) || (after.len() > 0
                && kind->0 == after[0])
            &&& before.len() > 0 && before[0] is Word ==> kind == Some(CharKind::Word)
            &&& after.len() > 0 && after[0] is Word ==> kind == Some(CharKind::Word)
            &&& kind == Some(CharKind::Whitespace) ==> (before.len() > 0 ==> before[0]
                == CharKind::Whitespace) && (after.len() > 0 ==> after[0] == CharKind::Whitespace)
        }),
{
}

} // verus!
