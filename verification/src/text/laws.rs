//! What the measures of a text say of it.

use vstd::prelude::*;

use crate::text::{is_continuation, summarize, utf16_units, NEWLINE};

verus! {

/// How many line breaks a text holds.
pub open spec fn line_breaks(t: Seq<u8>) -> int {
    t.filter(|b: u8| b == NEWLINE).len() as int
}

/// How many characters a row of a text holds: as many as start in it, the line break aside.
pub open spec fn chars_in_row(t: Seq<u8>, row: int) -> int
    decreases t.len(),
{
    if t.len() == 0 {
        0
    } else {
        let front = t.drop_last();
        let starts = t.last() != NEWLINE && !is_continuation(t.last());
        chars_in_row(front, row) + if starts && line_breaks(front) == row {
            1int
        } else {
            0int
        }
    }
}

/// How many UTF-16 code units a row of a text holds, the line break aside.
pub open spec fn units_in_row(t: Seq<u8>, row: int) -> int
    decreases t.len(),
{
    if t.len() == 0 {
        0
    } else {
        let front = t.drop_last();
        units_in_row(front, row) + if t.last() != NEWLINE && line_breaks(front) == row {
            utf16_units(t.last())
        } else {
            0int
        }
    }
}

/// A text is as long as it has bytes and has as many rows before its last as it has line
/// breaks; the last column counts the bytes behind the last line break.
pub proof fn lemma_lines(t: Seq<u8>)
    ensures
        ({
            let s = summarize(t);
            &&& s.len == t.len()
            &&& s.lines.row == line_breaks(t)
            &&& 0 <= s.lines.column <= t.len()
            &&& forall|o: int| t.len() - s.lines.column <= o < t.len() ==> #[trigger] t[o] != NEWLINE
            &&& s.lines.column < t.len() ==> t[t.len() - s.lines.column - 1] == NEWLINE
        }),
    decreases t.len(),
{
    reveal(summarize);
    reveal(Seq::filter);
    if t.len() > 0 {
        let front = t.drop_last();
        lemma_lines(front);
        let s = summarize(t);
        assert forall|o: int| t.len() - s.lines.column <= o < t.len() implies #[trigger] t[o]
            != NEWLINE by {
            if o < front.len() {
                assert(front[o] == t[o]);
            }
        }
        if s.lines.column < t.len() && t.last() != NEWLINE {
            assert(front[front.len() - summarize(front).lines.column - 1] == NEWLINE);
        }
    }
}

/// The first and the last line measure what their rows hold, and the longest row is the
/// first that holds as many characters as any.
pub proof fn lemma_rows_measured(t: Seq<u8>, row: int)
    ensures
        ({
            let s = summarize(t);
            &&& s.first_line_chars == chars_in_row(t, 0)
            &&& s.last_line_chars == chars_in_row(t, line_breaks(t))
            &&& s.last_line_len_utf16 == units_in_row(t, line_breaks(t))
            &&& s.longest_row_chars == chars_in_row(t, s.longest_row)
            &&& 0 <= s.longest_row <= line_breaks(t)
            &&& chars_in_row(t, row) <= s.longest_row_chars
            &&& 0 <= row < s.longest_row ==> chars_in_row(t, row) < s.longest_row_chars
            &&& row > line_breaks(t) ==> chars_in_row(t, row) == 0 && units_in_row(t, row) == 0
            &&& 0 <= chars_in_row(t, row)
        }),
    decreases t.len(),
{
    reveal(summarize);
    reveal(Seq::filter);
    if t.len() > 0 {
        let front = t.drop_last();
        lemma_rows_measured(front, row);
        lemma_rows_measured(front, 0);
        lemma_rows_measured(front, line_breaks(front));
        lemma_rows_measured(front, line_breaks(front) + 1);
        lemma_rows_measured(front, summarize(front).longest_row);
        lemma_lines(front);
        lemma_lines(t);
    }
}

} // verus!
