//! What a multibuffer knows of a buffer: its text at one point in time.

use std::ops::Range;
use vstd::prelude::*;
use vstd::string::*;
use vstd::utf8::*;

use crate::clock::{latest_tick, Global, Lamport};
use crate::text::{
    find, find_in, found_at, is_boundary, is_continuation, lemma_find, lemma_find_point,
    lemma_positions_grow, lemma_summary_sound, offset_utf16_at, point_at, point_utf16_at, summarize,
    Bias, OffsetUtf16, Point, PointUtf16, Pos, TextSummary, Unclipped, MAX_TEXT_LEN, NEWLINE,
};

verus! {

/// Names a buffer.
#[derive(Clone, Copy, Debug, PartialEq, Eq, PartialOrd, Ord, Hash, Structural)]
pub struct BufferId(pub u64);

/// Whether a buffer may be edited.
#[derive(Clone, Copy, Debug, PartialEq, Eq, Structural)]
pub enum Capability {
    ReadWrite,
    ReadOnly,
}

/// A position in a buffer that stays with the text around it.
#[derive(Clone, Copy, Debug, PartialEq, Eq, Hash, Structural)]
pub struct TextAnchor {
    /// When the text that the anchor sticks to was inserted.
    pub timestamp: Lamport,
    /// Where the anchor is in the snapshot at hand. Beyond the end means at
    /// the end.
    pub offset: usize,
    /// Whether text that is inserted at the anchor goes behind or before it.
    pub bias: Bias,
}

/// The offset of an anchor in a text of `len` bytes.
pub open spec fn resolved(anchor: TextAnchor, len: int) -> int {
    if anchor.offset <= len {
        anchor.offset as int
    } else {
        len
    }
}

/// Whether `a` comes before `b` in a text of `len` bytes: by offset, and at one
/// offset the left-biased anchor first.
pub open spec fn anchor_precedes(a: TextAnchor, b: TextAnchor, len: int) -> bool {
    ||| resolved(a, len) < resolved(b, len)
    ||| resolved(a, len) == resolved(b, len) && a.bias is Left && b.bias is Right
}

impl TextAnchor {
    /// The anchor before all text.
    pub fn min() -> (r: Self)
        ensures
            r == min_text_anchor(),
    {
        TextAnchor {
            timestamp: Lamport { replica_id: 0, value: 0 },
            offset: 0,
            bias: Bias::Left,
        }
    }

    /// The anchor behind all text.
    pub fn max() -> (r: Self)
        ensures
            r == max_text_anchor(),
    {
        TextAnchor {
            timestamp: Lamport { replica_id: u16::MAX, value: u32::MAX },
            offset: usize::MAX,
            bias: Bias::Right,
        }
    }

    pub fn to_offset(&self, buffer: &BufferSnapshot) -> (r: usize)
        requires
            buffer.wf(),
        ensures
            r == resolved(*self, buffer.bytes().len() as int),
            r <= buffer.bytes().len(),
    {
        if self.offset <= buffer.len() {
            self.offset
        } else {
            buffer.len()
        }
    }

    pub fn to_point(&self, buffer: &BufferSnapshot) -> (r: Point)
        requires
            buffer.wf(),
        ensures
            r@ == point_at(buffer.bytes(), resolved(*self, buffer.bytes().len() as int)),
    {
        buffer.offset_to_point(self.to_offset(buffer))
    }

    /// Whether `self` comes before `other`.
    pub fn precedes(&self, other: &Self, buffer: &BufferSnapshot) -> (r: bool)
        requires
            buffer.wf(),
        ensures
            r == anchor_precedes(*self, *other, buffer.bytes().len() as int),
    {
        let a: usize = self.to_offset(buffer);
        let b: usize = other.to_offset(buffer);
        a < b || (a == b && self.bias == Bias::Left && other.bias == Bias::Right)
    }
}

pub open spec fn min_text_anchor() -> TextAnchor {
    TextAnchor { timestamp: Lamport { replica_id: 0, value: 0 }, offset: 0, bias: Bias::Left }
}

pub open spec fn max_text_anchor() -> TextAnchor {
    TextAnchor {
        timestamp: Lamport { replica_id: u16::MAX, value: u32::MAX },
        offset: usize::MAX,
        bias: Bias::Right,
    }
}

/// A buffer at one point in time.
#[derive(Debug)]
pub struct BufferSnapshot {
    pub remote_id: BufferId,
    pub text: String,
    /// The starts of the characters that belong to one visible character with
    /// the character before them.
    pub joined_chars: Vec<usize>,
    /// The edits that the snapshot knows of.
    pub version: Global,
    /// One of those edits.
    pub timestamp: Lamport,
    pub non_text_state_update_count: usize,
    pub is_dirty: bool,
    pub has_deleted_file: bool,
    pub has_conflict: bool,
    pub has_diagnostics: bool,
    pub capability: Capability,
}

/// The start of a row: the end of the text where there is no such row.
pub open spec fn row_start(t: Seq<u8>, row: u32) -> int {
    find(t, Point { row, column: 0 }, 0)
}

/// The end of a row, in front of its line break.
pub open spec fn row_end(t: Seq<u8>, row: u32) -> int {
    find(t, Point { row, column: u32::MAX }, 0)
}

/// The nearest offset to the left of `o`, or `o` itself, at which a character
/// starts.
pub open spec fn boundary_left(t: Seq<u8>, o: int) -> int
    decreases o,
{
    if o <= 0 || is_boundary(t, o) {
        o
    } else {
        boundary_left(t, o - 1)
    }
}

/// The nearest offset to the right of `o`, or `o` itself, at which a character
/// starts or the text ends.
pub open spec fn boundary_right(t: Seq<u8>, o: int) -> int
    decreases t.len() - o,
{
    if o >= t.len() || is_boundary(t, o) {
        o
    } else {
        boundary_right(t, o + 1)
    }
}

/// `o` moved to where a character starts or the text ends.
pub open spec fn clipped_offset(t: Seq<u8>, o: int, bias: Bias) -> int {
    if o >= t.len() {
        t.len() as int
    } else if bias is Left {
        boundary_left(t, o)
    } else {
        boundary_right(t, o)
    }
}

/// The UTF-16 offset `target` moved out of the middle of a character.
pub open spec fn clipped_offset_utf16(t: Seq<u8>, target: OffsetUtf16, bias: Bias) -> int {
    let at = offset_utf16_at(t, find(t, target, 0));
    if at > target@ && bias is Left {
        at - 2
    } else {
        at
    }
}

/// The UTF-16 position `target` moved into the text and out of the middle of a
/// character.
pub open spec fn clipped_point_utf16(t: Seq<u8>, target: PointUtf16, bias: Bias) -> Pos {
    let at = point_utf16_at(t, find(t, target, 0));
    if at.row == target.row && at.column > target.column && bias is Left {
        Pos { row: at.row, column: at.column - 2 }
    } else {
        at
    }
}

/// Whether a visible character starts at `o`, or the text ends there.
pub open spec fn is_visible_boundary(t: Seq<u8>, joined: Seq<usize>, o: int) -> bool {
    is_boundary(t, o) && !(exists|k: int| 0 <= k < joined.len() && #[trigger] joined[k] == o)
}

pub open spec fn visible_left(t: Seq<u8>, joined: Seq<usize>, o: int) -> int
    decreases o,
{
    if o <= 0 || is_visible_boundary(t, joined, o) {
        o
    } else {
        visible_left(t, joined, o - 1)
    }
}

pub open spec fn visible_right(t: Seq<u8>, joined: Seq<usize>, o: int) -> int
    decreases t.len() - o,
{
    if o >= t.len() || is_visible_boundary(t, joined, o) {
        o
    } else {
        visible_right(t, joined, o + 1)
    }
}

/// The offset at which `target` ends up when it is moved into the text and out
/// of the middle of a visible character.
pub open spec fn clipped_point_offset(
    t: Seq<u8>,
    joined: Seq<usize>,
    target: Point,
    bias: Bias,
) -> int {
    let start = row_start(t, target.row);
    let end = row_end(t, target.row);
    let o = if start + target.column < end {
        start + target.column
    } else {
        end
    };
    if bias is Left {
        visible_left(t, joined, o)
    } else {
        visible_right(t, joined, o)
    }
}

pub proof fn lemma_boundary_left(t: Seq<u8>, o: int)
    requires
        0 <= o <= t.len(),
    ensures
        0 <= boundary_left(t, o) <= o,
        is_boundary(t, boundary_left(t, o)),
        forall|k: int| boundary_left(t, o) < k <= o ==> !is_boundary(t, k),
    decreases o,
{
    if o > 0 && !is_boundary(t, o) {
        lemma_boundary_left(t, o - 1);
    }
}

pub proof fn lemma_boundary_right(t: Seq<u8>, o: int)
    requires
        0 <= o <= t.len(),
    ensures
        o <= boundary_right(t, o) <= t.len(),
        is_boundary(t, boundary_right(t, o)),
        forall|k: int| o <= k < boundary_right(t, o) ==> !is_boundary(t, k),
    decreases t.len() - o,
{
    if o < t.len() && !is_boundary(t, o) {
        lemma_boundary_right(t, o + 1);
    }
}

pub proof fn lemma_visible_left(t: Seq<u8>, joined: Seq<usize>, o: int)
    requires
        0 <= o <= t.len(),
    ensures
        0 <= visible_left(t, joined, o) <= o,
        is_boundary(t, visible_left(t, joined, o)),
    decreases o,
{
    if o > 0 && !is_visible_boundary(t, joined, o) {
        lemma_visible_left(t, joined, o - 1);
    }
}

pub proof fn lemma_visible_right(t: Seq<u8>, joined: Seq<usize>, o: int)
    requires
        0 <= o <= t.len(),
    ensures
        o <= visible_right(t, joined, o) <= t.len(),
        is_boundary(t, visible_right(t, joined, o)),
    decreases t.len() - o,
{
    if o < t.len() && !is_visible_boundary(t, joined, o) {
        lemma_visible_right(t, joined, o + 1);
    }
}

proof fn lemma_visible_left_from(t: Seq<u8>, joined: Seq<usize>, o: int, from: int)
    requires
        0 <= from <= o <= t.len(),
        is_visible_boundary(t, joined, from),
    ensures
        from <= visible_left(t, joined, o),
    decreases o,
{
    if o > from && !is_visible_boundary(t, joined, o) {
        lemma_visible_left_from(t, joined, o - 1, from);
    }
}

proof fn lemma_visible_right_to(t: Seq<u8>, joined: Seq<usize>, o: int, to: int)
    requires
        0 <= o <= to <= t.len(),
        is_visible_boundary(t, joined, to),
    ensures
        visible_right(t, joined, o) <= to,
    decreases to - o,
{
    if o < to && !is_visible_boundary(t, joined, o) {
        lemma_visible_right_to(t, joined, o + 1, to);
    }
}

/// Rows grow with the offset.
proof fn lemma_rows_grow(t: Seq<u8>, a: int, b: int)
    requires
        0 <= a <= b <= t.len(),
    ensures
        point_at(t, a).row <= point_at(t, b).row,
{
    if a < b {
        lemma_positions_grow(t, a, b);
    }
}

/// Rows behind the last one start and end at the end of the text.
pub proof fn lemma_rows_past_end(t: Seq<u8>, row: u32)
    requires
        row > point_at(t, t.len() as int).row,
    ensures
        row_start(t, row) == t.len(),
        row_end(t, row) == t.len(),
{
    let first = Point { row, column: 0 };
    let last = Point { row, column: u32::MAX };
    lemma_find(t, first, 0);
    lemma_find(t, last, 0);
    lemma_rows_grow(t, row_start(t, row), t.len() as int);
    lemma_rows_grow(t, row_end(t, row), t.len() as int);
}

/// The text of a string starts a character at exactly the offsets that
/// `is_boundary` names.
pub proof fn lemma_string_boundaries(chars: Seq<char>, o: int)
    ensures
        valid_utf8(encode_utf8(chars)),
        encode_utf8(chars).len() > 0 ==> !is_continuation(encode_utf8(chars)[0]),
        0 <= o <= encode_utf8(chars).len() ==> (is_char_boundary(encode_utf8(chars), o)
            == is_boundary(encode_utf8(chars), o)),
{
    let t = encode_utf8(chars);
    encode_utf8_valid_utf8(chars);
    if t.len() > 0 {
        is_char_boundary_start_end_of_seq(t);
        is_char_boundary_iff_not_is_continuation_byte(t, 0);
        utf8_byte_ranges_bitwise(t[0]);
    }
    if 0 <= o <= t.len() {
        is_char_boundary_start_end_of_seq(t);
        if o < t.len() {
            is_char_boundary_iff_not_is_continuation_byte(t, o);
            utf8_byte_ranges_bitwise(t[o]);
        }
    }
}

/// A row starts a column's number of bytes before the column.
pub proof fn lemma_row_begin(t: Seq<u8>, o: int)
    requires
        0 <= o <= t.len(),
    ensures
        0 <= point_at(t, o).column <= o,
        point_at(t, o - point_at(t, o).column) == (Pos { row: point_at(t, o).row, column: 0 }),
        point_utf16_at(t, o - point_at(t, o).column) == (Pos {
            row: point_at(t, o).row,
            column: 0,
        }),
        o == point_at(t, o).column || t[o - point_at(t, o).column - 1] == NEWLINE,
    decreases o,
{
    reveal(summarize);
    if o == 0 {
        assert(t.take(0) =~= Seq::<u8>::empty());
    } else {
        assert(t.take(o).drop_last() =~= t.take(o - 1));
        assert(t.take(o).last() == t[o - 1]);
        if t[o - 1] != NEWLINE {
            lemma_row_begin(t, o - 1);
        }
    }
}

/// A row starts before it ends.
pub proof fn lemma_row_bounds(t: Seq<u8>, row: u32)
    ensures
        0 <= row_start(t, row) <= row_end(t, row) <= t.len(),
        is_boundary(t, row_start(t, row)),
        is_boundary(t, row_end(t, row)),
{
    let first = Point { row, column: 0 };
    let last = Point { row, column: u32::MAX };
    lemma_find(t, first, 0);
    lemma_find(t, last, 0);
    if row_end(t, row) < row_start(t, row) {
        assert(found_at(t, first, row_end(t, row)));
    }
}

/// A text that reaches behind a row has the line break of that row.
pub proof fn lemma_newline_of_row(t: Seq<u8>, o: int, row: int) -> (k: int)
    requires
        0 <= o <= t.len(),
        0 <= row < point_at(t, o).row,
    ensures
        0 <= k < o,
        t[k] == NEWLINE,
        point_at(t, k).row == row,
    decreases o,
{
    reveal(summarize);
    if o == 0 {
        assert(t.take(0) =~= Seq::<u8>::empty());
        0
    } else {
        assert(t.take(o).drop_last() =~= t.take(o - 1));
        assert(t.take(o).last() == t[o - 1]);
        if t[o - 1] == NEWLINE && point_at(t, o - 1).row == row {
            o - 1
        } else {
            lemma_newline_of_row(t, o - 1, row)
        }
    }
}

/// A search for a position in a row that there is ends in that row.
pub proof fn lemma_find_in_row(t: Seq<u8>, target: Point)
    requires
        target.row <= point_at(t, t.len() as int).row,
    ensures
        point_at(t, find(t, target, 0)).row == target.row,
        0 <= find(t, target, 0) <= t.len(),
        is_boundary(t, find(t, target, 0)),
{
    let r = find(t, target, 0);
    lemma_find(t, target, 0);
    if point_at(t, r).row > target.row {
        let k = lemma_newline_of_row(t, r, target.row as int);
        assert(found_at(t, target, k));
    }
}

/// A row ends at its line break or at the end of the text.
pub proof fn lemma_row_end(t: Seq<u8>, row: u32)
    requires
        row <= point_at(t, t.len() as int).row,
        t.len() <= MAX_TEXT_LEN,
    ensures
        row_end(t, row) == t.len() || t[row_end(t, row)] == NEWLINE,
        point_at(t, row_end(t, row)).row == row,
{
    let last = Point { row, column: u32::MAX };
    lemma_find(t, last, 0);
    lemma_find_in_row(t, last);
    lemma_summary_sound(t.take(row_end(t, row)));
}

/// A character starts behind a line break.
pub proof fn lemma_boundary_after_newline(chars: Seq<char>, o: int)
    requires
        0 < o <= encode_utf8(chars).len(),
        encode_utf8(chars)[o - 1] == NEWLINE,
    ensures
        is_boundary(encode_utf8(chars), o),
{
    let t = encode_utf8(chars);
    if o < t.len() {
        lemma_string_boundaries(chars, o - 1);
        valid_utf8_split(t, o - 1);
        let tail = t.subrange(o - 1, t.len() as int);
        assert(tail[0] == NEWLINE);
        let rest = pop_first_scalar(tail);
        assert(valid_utf8(rest));
        assert(is_leading_byte_width_1(10u8)) by {
            utf8_byte_ranges_bitwise(10u8);
        }
        assert(rest =~= t.subrange(o, t.len() as int));
        is_char_boundary_start_end_of_seq(rest);
        is_char_boundary_iff_not_is_continuation_byte(rest, 0);
        utf8_byte_ranges_bitwise(rest[0]);
    }
}

/// A search for a UTF-16 offset that ends behind it passed a code unit before.
pub proof fn lemma_straddled_offset(t: Seq<u8>, target: OffsetUtf16)
    requires
        offset_utf16_at(t, find(t, target, 0)) > target@,
    ensures
        offset_utf16_at(t, find(t, target, 0)) >= 2,
{
    reveal(summarize);
    lemma_find(t, target, 0);
    assert(t.take(0) =~= Seq::<u8>::empty());
    assert(!found_at(t, target, 0));
}

/// A search for a UTF-16 position that ends behind it passed a code unit of the
/// same row before.
pub proof fn lemma_straddled_point(chars: Seq<char>, target: PointUtf16)
    requires
        ({
            let at = point_utf16_at(encode_utf8(chars), find(encode_utf8(chars), target, 0));
            at.row == target.row && at.column > target.column
        }),
    ensures
        point_utf16_at(encode_utf8(chars), find(encode_utf8(chars), target, 0)).column >= 2,
{
    let t = encode_utf8(chars);
    let o = find(t, target, 0);
    lemma_find(t, target, 0);
    lemma_row_begin(t, o);
    let begin = o - point_at(t, o).column;
    if begin > 0 {
        lemma_boundary_after_newline(chars, begin);
    }
    if begin < o {
        assert(!found_at(t, target, begin));
    }
}

impl BufferSnapshot {
    /// The text, in UTF-8.
    #[verifier::opaque]
    pub open spec fn bytes(&self) -> Seq<u8> {
        encode_utf8(self.text@)
    }

    /// Whether an offset lies between two bytes of one line.
    pub open spec fn is_inside_line(&self, o: int) -> bool {
        0 < o < self.bytes().len() && self.bytes()[o - 1] != NEWLINE && self.bytes()[o]
            != NEWLINE
    }

    /// The text starts with a whole character.
    pub proof fn lemma_starts_char(&self)
        ensures
            self.bytes().len() > 0 ==> !is_continuation(self.bytes()[0]),
    {
        reveal(BufferSnapshot::bytes);
        lemma_string_boundaries(self.text@, 0);
    }

    pub open spec fn wf(&self) -> bool {
        &&& self.bytes().len() <= MAX_TEXT_LEN
        &&& forall|k: int|
            0 <= k < self.joined_chars@.len() ==> self.is_inside_line(
                #[trigger] self.joined_chars@[k] as int,
            )
        &&& latest_tick(self.version@, self.timestamp.replica_id as int) >= self.timestamp.value
    }

    /// Where a row starts and ends.
    pub proof fn lemma_row(&self, row: u32)
        requires
            self.wf(),
            row <= point_at(self.bytes(), self.bytes().len() as int).row,
        ensures
            0 <= row_start(self.bytes(), row) <= row_end(self.bytes(), row)
                <= self.bytes().len(),
            point_at(self.bytes(), row_start(self.bytes(), row)) == (Pos {
                row: row as int,
                column: 0,
            }),
            point_at(self.bytes(), row_end(self.bytes(), row)) == (Pos {
                row: row as int,
                column: row_end(self.bytes(), row) - row_start(self.bytes(), row),
            }),
            row_end(self.bytes(), row) == self.bytes().len() || self.bytes()[row_end(
                self.bytes(),
                row,
            )] == NEWLINE,
            is_boundary(self.bytes(), row_start(self.bytes(), row)),
            is_boundary(self.bytes(), row_end(self.bytes(), row)),
    {
        let t = self.bytes();
        let first = Point { row, column: 0 };
        let start = row_start(t, row);
        let end = row_end(t, row);
        lemma_row_bounds(t, row);
        lemma_row_end(t, row);
        lemma_find_in_row(t, first);
        lemma_find(t, first, 0);
        lemma_row_begin(t, start);
        let begin = start - point_at(t, start).column;
        self.lemma_boundary_at_row_begin(begin);
        if begin < start {
            assert(found_at(t, first, begin));
        }
        lemma_row_begin(t, end);
        let end_begin = end - point_at(t, end).column;
        self.lemma_boundary_at_row_begin(end_begin);
        lemma_find_point(t, first, end_begin);
    }

    /// What lies behind the end of a row lies in a later row.
    pub proof fn lemma_row_end_behind(&self, row: u32, o: int)
        requires
            self.wf(),
            row <= point_at(self.bytes(), self.bytes().len() as int).row,
            row_end(self.bytes(), row) < o <= self.bytes().len(),
        ensures
            point_at(self.bytes(), o).row > row,
    {
        let t = self.bytes();
        let end = row_end(t, row);
        self.lemma_row(row);
        reveal(summarize);
        assert(t.take(end + 1).drop_last() =~= t.take(end));
        if end + 1 < o {
            lemma_positions_grow(t, end + 1, o);
        }
    }

    /// A position that is moved out of the middle of a character stays in its
    /// row, as far as there are rows.
    pub proof fn lemma_clip_row(&self, target: Point, bias: Bias)
        requires
            self.wf(),
        ensures
            ({
                let t = self.bytes();
                let max_row = point_at(t, t.len() as int).row;
                let o = clipped_point_offset(t, self.joined_chars@, target, bias);
                &&& 0 <= o <= t.len()
                &&& is_boundary(t, o)
                &&& point_at(t, o).row == if target.row <= max_row {
                    target.row as int
                } else {
                    max_row
                }
            }),
    {
        let t = self.bytes();
        let joined = self.joined_chars@;
        let max_row = point_at(t, t.len() as int).row;
        let o = clipped_point_offset(t, joined, target, bias);
        let start = row_start(t, target.row);
        let end = row_end(t, target.row);
        lemma_row_bounds(t, target.row);
        let at = if start + target.column < end {
            start + target.column
        } else {
            end
        };
        lemma_visible_left(t, joined, at);
        lemma_visible_right(t, joined, at);
        if target.row <= max_row {
            self.lemma_row(target.row);
            lemma_row_begin(t, start);
            assert(is_visible_boundary(t, joined, start)) by {
                if exists|k: int| 0 <= k < joined.len() && #[trigger] joined[k] == start {
                    let k = choose|k: int| 0 <= k < joined.len() && #[trigger] joined[k] == start;
                    assert(self.is_inside_line(joined[k] as int));
                }
            }
            assert(is_visible_boundary(t, joined, end)) by {
                if exists|k: int| 0 <= k < joined.len() && #[trigger] joined[k] == end {
                    let k = choose|k: int| 0 <= k < joined.len() && #[trigger] joined[k] == end;
                    assert(self.is_inside_line(joined[k] as int));
                }
            }
            lemma_visible_left_from(t, joined, at, start);
            lemma_visible_right_to(t, joined, at, end);
            lemma_rows_grow(t, start, o);
            lemma_rows_grow(t, o, end);
        } else {
            lemma_rows_past_end(t, target.row);
            assert(is_visible_boundary(t, joined, t.len() as int)) by {
                if exists|k: int| 0 <= k < joined.len() && #[trigger] joined[k] == t.len() {
                    let k = choose|k: int|
                        0 <= k < joined.len() && #[trigger] joined[k] == t.len();
                    assert(self.is_inside_line(joined[k] as int));
                }
            }
        }
    }

    proof fn lemma_boundary_at_row_begin(&self, begin: int)
        requires
            0 <= begin <= self.bytes().len(),
            begin == 0 || self.bytes()[begin - 1] == NEWLINE,
        ensures
            is_boundary(self.bytes(), begin),
    {
        reveal(BufferSnapshot::bytes);
        if begin > 0 {
            lemma_boundary_after_newline(self.text@, begin);
        }
    }

    /// The anchor at `o`.
    pub open spec fn anchor_spec(&self, o: int, bias: Bias) -> TextAnchor {
        if o == 0 && bias is Left {
            min_text_anchor()
        } else if o >= self.bytes().len() && bias is Right {
            max_text_anchor()
        } else {
            TextAnchor { timestamp: self.timestamp, offset: o as usize, bias }
        }
    }

    /// A buffer that holds `text` and has not been edited.
    pub fn new(remote_id: BufferId, text: String) -> (r: Self)
        requires
            encode_utf8(text@).len() <= MAX_TEXT_LEN,
        ensures
            r.wf(),
            r.remote_id == remote_id,
            r.text == text,
            r.joined_chars@.len() == 0,
            r.version@.len() == 0,
            r.non_text_state_update_count == 0,
            !r.is_dirty && !r.has_deleted_file && !r.has_conflict && !r.has_diagnostics,
            r.capability is ReadWrite,
    {
        proof {
            reveal(BufferSnapshot::bytes);
        }
        BufferSnapshot {
            remote_id,
            text,
            joined_chars: Vec::new(),
            version: Global::new(Vec::new()),
            timestamp: Lamport { replica_id: 0, value: 0 },
            non_text_state_update_count: 0,
            is_dirty: false,
            has_deleted_file: false,
            has_conflict: false,
            has_diagnostics: false,
            capability: Capability::ReadWrite,
        }
    }

    pub fn text_bytes(&self) -> (r: &[u8])
        ensures
            r@ == self.bytes(),
    {
        proof {
            reveal(BufferSnapshot::bytes);
        }
        self.text.as_str().as_bytes()
    }

    pub fn len(&self) -> (r: usize)
        requires
            self.wf(),
        ensures
            r == self.bytes().len(),
    {
        self.text_bytes().len()
    }

    /// What the text from `range.start` to `range.end` measures.
    pub fn text_summary_for_range(&self, range: Range<usize>) -> (r: TextSummary)
        requires
            self.wf(),
            range.start <= range.end <= self.bytes().len(),
        ensures
            r@ == summarize(self.bytes().subrange(range.start as int, range.end as int)),
            r@.sound(),
    {
        TextSummary::of_range(self.text_bytes(), range.start, range.end)
    }

    /// What the text before `offset` measures.
    pub fn summary_at(&self, offset: usize) -> (r: TextSummary)
        requires
            self.wf(),
        ensures
            r@ == summarize(
                self.bytes().take(
                    if offset <= self.bytes().len() {
                        offset as int
                    } else {
                        self.bytes().len() as int
                    },
                ),
            ),
            r@.sound(),
    {
        let end: usize = if offset <= self.len() {
            offset
        } else {
            self.len()
        };
        assert(self.bytes().subrange(0, end as int) =~= self.bytes().take(end as int));
        self.text_summary_for_range(0..end)
    }

    pub fn offset_to_point(&self, offset: usize) -> (r: Point)
        requires
            self.wf(),
        ensures
            offset <= self.bytes().len() ==> r@ == point_at(self.bytes(), offset as int),
            offset > self.bytes().len() ==> r@ == point_at(
                self.bytes(),
                self.bytes().len() as int,
            ),
    {
        self.summary_at(offset).lines
    }

    pub fn offset_to_point_utf16(&self, offset: usize) -> (r: PointUtf16)
        requires
            self.wf(),
        ensures
            offset <= self.bytes().len() ==> r@ == point_utf16_at(self.bytes(), offset as int),
            offset > self.bytes().len() ==> r@ == point_utf16_at(
                self.bytes(),
                self.bytes().len() as int,
            ),
    {
        self.summary_at(offset).lines_utf16()
    }

    pub fn offset_to_offset_utf16(&self, offset: usize) -> (r: OffsetUtf16)
        requires
            self.wf(),
        ensures
            offset <= self.bytes().len() ==> r@ == offset_utf16_at(self.bytes(), offset as int),
            offset > self.bytes().len() ==> r@ == offset_utf16_at(
                self.bytes(),
                self.bytes().len() as int,
            ),
    {
        self.summary_at(offset).len_utf16
    }

    pub fn point_to_offset(&self, point: Point) -> (r: usize)
        requires
            self.wf(),
        ensures
            r == find(self.bytes(), point, 0),
            r <= self.bytes().len(),
            is_boundary(self.bytes(), r as int),
    {
        find_in(self.text_bytes(), &point)
    }

    pub fn point_utf16_to_offset(&self, point: PointUtf16) -> (r: usize)
        requires
            self.wf(),
        ensures
            r == find(self.bytes(), point, 0),
            r <= self.bytes().len(),
            is_boundary(self.bytes(), r as int),
    {
        find_in(self.text_bytes(), &point)
    }

    pub fn offset_utf16_to_offset(&self, offset: OffsetUtf16) -> (r: usize)
        requires
            self.wf(),
        ensures
            r == find(self.bytes(), offset, 0),
            r <= self.bytes().len(),
            is_boundary(self.bytes(), r as int),
    {
        find_in(self.text_bytes(), &offset)
    }

    pub fn point_to_point_utf16(&self, point: Point) -> (r: PointUtf16)
        requires
            self.wf(),
        ensures
            r@ == point_utf16_at(self.bytes(), find(self.bytes(), point, 0)),
    {
        self.offset_to_point_utf16(self.point_to_offset(point))
    }

    pub fn max_point(&self) -> (r: Point)
        requires
            self.wf(),
        ensures
            r@ == point_at(self.bytes(), self.bytes().len() as int),
    {
        self.offset_to_point(self.len())
    }

    /// How many bytes the row `row` holds.
    pub fn line_len(&self, row: u32) -> (r: u32)
        requires
            self.wf(),
        ensures
            r == row_end(self.bytes(), row) - row_start(self.bytes(), row),
    {
        let start: usize = self.point_to_offset(Point { row, column: 0 });
        let end: usize = self.point_to_offset(Point { row, column: u32::MAX });
        proof {
            lemma_row_bounds(self.bytes(), row);
        }
        (end - start) as u32
    }

    pub fn clip_offset(&self, offset: usize, bias: Bias) -> (r: usize)
        requires
            self.wf(),
        ensures
            r == clipped_offset(self.bytes(), offset as int, bias),
            r <= self.bytes().len(),
            is_boundary(self.bytes(), r as int),
    {
        let bytes = self.text_bytes();
        if offset >= bytes.len() {
            return bytes.len();
        }
        let mut o: usize = offset;
        if bias == Bias::Left {
            while o > 0 && (0x80 <= bytes[o] && bytes[o] < 0xc0)
                invariant
                    o < bytes@.len(),
                    bytes@ == self.bytes(),
                    boundary_left(bytes@, offset as int) == boundary_left(bytes@, o as int),
                decreases o,
            {
                o = o - 1;
            }
        } else {
            while o < bytes.len() && o > 0 && (0x80 <= bytes[o] && bytes[o] < 0xc0)
                invariant
                    o <= bytes@.len(),
                    bytes@ == self.bytes(),
                    boundary_right(bytes@, offset as int) == boundary_right(bytes@, o as int),
                decreases bytes@.len() - o,
            {
                o = o + 1;
            }
        }
        o
    }

    pub fn clip_offset_utf16(&self, offset: OffsetUtf16, bias: Bias) -> (r: OffsetUtf16)
        requires
            self.wf(),
        ensures
            r@ == clipped_offset_utf16(self.bytes(), offset, bias),
    {
        let o: usize = self.offset_utf16_to_offset(offset);
        let at = self.offset_to_offset_utf16(o);
        if at.0 > offset.0 && bias == Bias::Left {
            proof {
                lemma_straddled_offset(self.bytes(), offset);
            }
            OffsetUtf16(at.0 - 2)
        } else {
            at
        }
    }

    pub fn clip_point_utf16(&self, point: Unclipped<PointUtf16>, bias: Bias) -> (r: PointUtf16)
        requires
            self.wf(),
        ensures
            r@ == clipped_point_utf16(self.bytes(), point.0, bias),
    {
        let target = point.0;
        let o: usize = self.point_utf16_to_offset(target);
        let at = self.offset_to_point_utf16(o);
        if at.row == target.row && at.column > target.column && bias == Bias::Left {
            proof {
                reveal(BufferSnapshot::bytes);
                lemma_straddled_point(self.text@, target);
            }
            PointUtf16 { row: at.row, column: at.column - 2 }
        } else {
            at
        }
    }

    fn is_joined(&self, offset: usize) -> (r: bool)
        ensures
            r == exists|k: int|
                0 <= k < self.joined_chars@.len() && #[trigger] self.joined_chars@[k] == offset,
    {
        let mut i: usize = 0;
        while i < self.joined_chars.len()
            invariant
                i <= self.joined_chars@.len(),
                forall|k: int| 0 <= k < i ==> #[trigger] self.joined_chars@[k] != offset,
            decreases self.joined_chars@.len() - i,
        {
            if self.joined_chars[i] == offset {
                return true;
            }
            i = i + 1;
        }
        false
    }

    /// The offset of `point`, moved into the text and out of the middle of a
    /// visible character.
    fn clip_point_to_offset(&self, point: Point, bias: Bias) -> (r: usize)
        requires
            self.wf(),
        ensures
            r == clipped_point_offset(self.bytes(), self.joined_chars@, point, bias),
            r <= self.bytes().len(),
            is_boundary(self.bytes(), r as int),
    {
        let bytes = self.text_bytes();
        let start: usize = self.point_to_offset(Point { row: point.row, column: 0 });
        let end: usize = self.point_to_offset(Point { row: point.row, column: u32::MAX });
        proof {
            lemma_row_bounds(bytes@, point.row);
        }
        let first: usize = if (point.column as usize) < end - start {
            start + point.column as usize
        } else {
            end
        };
        let ghost joined = self.joined_chars@;
        let mut o: usize = first;
        if bias == Bias::Left {
            proof {
                lemma_visible_left(bytes@, joined, first as int);
            }
            while o > 0 && ((o < bytes.len() && 0x80 <= bytes[o] && bytes[o] < 0xc0)
                || self.is_joined(o))
                invariant
                    o <= bytes@.len(),
                    bytes@ == self.bytes(),
                    joined == self.joined_chars@,
                    visible_left(bytes@, joined, first as int) == visible_left(
                        bytes@,
                        joined,
                        o as int,
                    ),
                decreases o,
            {
                o = o - 1;
            }
        } else {
            proof {
                lemma_visible_right(bytes@, joined, first as int);
            }
            while o < bytes.len() && ((o > 0 && 0x80 <= bytes[o] && bytes[o] < 0xc0)
                || self.is_joined(o))
                invariant
                    o <= bytes@.len(),
                    bytes@ == self.bytes(),
                    joined == self.joined_chars@,
                    visible_right(bytes@, joined, first as int) == visible_right(
                        bytes@,
                        joined,
                        o as int,
                    ),
                decreases bytes@.len() - o,
            {
                o = o + 1;
            }
        }
        o
    }

    pub fn clip_point(&self, point: Point, bias: Bias) -> (r: Point)
        requires
            self.wf(),
        ensures
            r@ == point_at(
                self.bytes(),
                clipped_point_offset(self.bytes(), self.joined_chars@, point, bias),
            ),
    {
        let o: usize = self.clip_point_to_offset(point, bias);
        self.offset_to_point(o)
    }

    /// An anchor at `offset`.
    pub fn anchor_at(&self, offset: usize, bias: Bias) -> (r: TextAnchor)
        requires
            self.wf(),
            offset <= self.bytes().len(),
        ensures
            r == self.anchor_spec(offset as int, bias),
            resolved(r, self.bytes().len() as int) == offset,
    {
        if offset == 0 && bias == Bias::Left {
            TextAnchor::min()
        } else if offset >= self.len() && bias == Bias::Right {
            TextAnchor::max()
        } else {
            TextAnchor { timestamp: self.timestamp, offset, bias }
        }
    }

    pub fn anchor_before(&self, offset: usize) -> (r: TextAnchor)
        requires
            self.wf(),
            offset <= self.bytes().len(),
        ensures
            r == self.anchor_spec(offset as int, Bias::Left),
            resolved(r, self.bytes().len() as int) == offset,
    {
        self.anchor_at(offset, Bias::Left)
    }

    pub fn anchor_after(&self, offset: usize) -> (r: TextAnchor)
        requires
            self.wf(),
            offset <= self.bytes().len(),
        ensures
            r == self.anchor_spec(offset as int, Bias::Right),
            resolved(r, self.bytes().len() as int) == offset,
    {
        self.anchor_at(offset, Bias::Right)
    }

    /// Whether the snapshot knows the text that `anchor` sticks to.
    pub fn can_resolve(&self, anchor: &TextAnchor) -> (r: bool)
        ensures
            r == self.knows(*anchor),
    {
        *anchor == TextAnchor::min() || *anchor == TextAnchor::max() || self.version.observed(
            &anchor.timestamp,
        )
    }

    pub open spec fn knows(&self, anchor: TextAnchor) -> bool {
        ||| anchor == min_text_anchor()
        ||| anchor == max_text_anchor()
        ||| latest_tick(self.version@, anchor.timestamp.replica_id as int)
            >= anchor.timestamp.value
    }
}

/// A position in a buffer that can be turned into an offset.
pub trait ToBufferOffset {
    /// Whether the position lies in the buffer.
    spec fn is_in(&self, buffer: BufferSnapshot) -> bool;

    /// Its offset.
    spec fn offset_in(&self, buffer: BufferSnapshot) -> int;

    fn to_buffer_offset(&self, buffer: &BufferSnapshot) -> (r: usize)
        requires
            buffer.wf(),
            self.is_in(*buffer),
        ensures
            r == self.offset_in(*buffer),
            r <= buffer.bytes().len(),
    ;
}

impl ToBufferOffset for usize {
    open spec fn is_in(&self, buffer: BufferSnapshot) -> bool {
        *self <= buffer.bytes().len()
    }

    open spec fn offset_in(&self, buffer: BufferSnapshot) -> int {
        *self as int
    }

    fn to_buffer_offset(&self, buffer: &BufferSnapshot) -> (r: usize) {
        *self
    }
}

impl ToBufferOffset for Point {
    open spec fn is_in(&self, buffer: BufferSnapshot) -> bool {
        true
    }

    open spec fn offset_in(&self, buffer: BufferSnapshot) -> int {
        find(buffer.bytes(), *self, 0)
    }

    fn to_buffer_offset(&self, buffer: &BufferSnapshot) -> (r: usize) {
        buffer.point_to_offset(*self)
    }
}

impl ToBufferOffset for TextAnchor {
    open spec fn is_in(&self, buffer: BufferSnapshot) -> bool {
        true
    }

    open spec fn offset_in(&self, buffer: BufferSnapshot) -> int {
        resolved(*self, buffer.bytes().len() as int)
    }

    fn to_buffer_offset(&self, buffer: &BufferSnapshot) -> (r: usize) {
        self.to_offset(buffer)
    }
}

/// A position in a buffer that can be turned into a row and a column.
pub trait ToBufferPoint {
    /// The row and the column.
    spec fn point_in(&self, buffer: BufferSnapshot) -> Pos;

    fn to_buffer_point(&self, buffer: &BufferSnapshot) -> (r: Point)
        requires
            buffer.wf(),
        ensures
            r@ == self.point_in(*buffer),
    ;
}

impl ToBufferPoint for usize {
    open spec fn point_in(&self, buffer: BufferSnapshot) -> Pos {
        point_at(
            buffer.bytes(),
            if *self <= buffer.bytes().len() {
                *self as int
            } else {
                buffer.bytes().len() as int
            },
        )
    }

    fn to_buffer_point(&self, buffer: &BufferSnapshot) -> (r: Point) {
        buffer.offset_to_point(*self)
    }
}

impl ToBufferPoint for Point {
    open spec fn point_in(&self, buffer: BufferSnapshot) -> Pos {
        self@
    }

    fn to_buffer_point(&self, buffer: &BufferSnapshot) -> (r: Point) {
        *self
    }
}

impl ToBufferPoint for TextAnchor {
    open spec fn point_in(&self, buffer: BufferSnapshot) -> Pos {
        point_at(buffer.bytes(), resolved(*self, buffer.bytes().len() as int))
    }

    fn to_buffer_point(&self, buffer: &BufferSnapshot) -> (r: Point) {
        self.to_point(buffer)
    }
}

} // verus!
