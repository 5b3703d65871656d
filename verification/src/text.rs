//! Positions in a text and what a stretch of text measures.
//!
//! A text is a sequence of UTF-8 bytes. A position in it is a byte offset, an
//! offset in UTF-16 code units, a row and a byte column, or a row and a
//! column in UTF-16 code units.

use vstd::prelude::*;

pub mod laws;

verus! {

/// No buffer and no multibuffer holds more bytes than this. Rows and columns
/// are 32-bit numbers; below this length every row, every column, and the sum
/// of two of them is one.
pub const MAX_TEXT_LEN: usize = 0x7fff_ffff;

/// Which neighbour a position sticks to.
#[derive(Clone, Copy, Debug, PartialEq, Eq, Hash, Structural)]
pub enum Bias {
    Left,
    Right,
}

/// A row and a byte column, both counted from zero.
#[derive(Clone, Copy, Debug, Default, PartialEq, Eq, PartialOrd, Ord, Hash, Structural)]
pub struct Point {
    pub row: u32,
    pub column: u32,
}

/// A row and a column in UTF-16 code units, both counted from zero.
#[derive(Clone, Copy, Debug, Default, PartialEq, Eq, PartialOrd, Ord, Hash, Structural)]
pub struct PointUtf16 {
    pub row: u32,
    pub column: u32,
}

/// An offset in UTF-16 code units.
#[derive(Clone, Copy, Debug, Default, PartialEq, Eq, PartialOrd, Ord, Hash, Structural)]
pub struct OffsetUtf16(pub usize);

/// A position that need not lie in the text.
#[derive(Clone, Copy, Debug, Default, PartialEq, Eq, Hash, Structural)]
pub struct Unclipped<T>(pub T);

/// What a stretch of text measures.
#[derive(Clone, Copy, Debug, Default, PartialEq, Eq, Hash, Structural)]
pub struct TextSummary {
    /// Length in bytes.
    pub len: usize,
    /// Length in UTF-16 code units.
    pub len_utf16: OffsetUtf16,
    /// The position behind the last byte.
    pub lines: Point,
    /// How many characters stand in the first row.
    pub first_line_chars: u32,
    /// How many characters stand in the last row.
    pub last_line_chars: u32,
    /// How many UTF-16 code units stand in the last row.
    pub last_line_len_utf16: u32,
    /// The first of the rows with the most characters.
    pub longest_row: u32,
    /// How many characters stand in `longest_row`.
    pub longest_row_chars: u32,
}

// ---------------------------------------------------------------------------
// Positions
// ---------------------------------------------------------------------------

/// A row and a column.
pub struct Pos {
    pub row: int,
    pub column: int,
}

impl Pos {
    pub open spec fn zero() -> Pos {
        Pos { row: 0, column: 0 }
    }

    /// Reading order: by row, then by column.
    pub open spec fn before(self, other: Pos) -> bool {
        self.row < other.row || (self.row == other.row && self.column < other.column)
    }

    pub open spec fn not_after(self, other: Pos) -> bool {
        self == other || self.before(other)
    }

    /// Where `other` ends up when it is counted from `self`.
    pub open spec fn plus(self, other: Pos) -> Pos {
        if other.row == 0 {
            Pos { row: self.row, column: self.column + other.column }
        } else {
            Pos { row: self.row + other.row, column: other.column }
        }
    }

    /// `self` counted from `other`.
    pub open spec fn minus(self, other: Pos) -> Pos {
        if self.row == other.row {
            Pos { row: 0, column: self.column - other.column }
        } else {
            Pos { row: self.row - other.row, column: self.column }
        }
    }

    /// `self` counted from `other`, or zero where `self` lies before it.
    pub open spec fn saturating_minus(self, other: Pos) -> Pos {
        if self.before(other) {
            Pos::zero()
        } else {
            self.minus(other)
        }
    }

    /// The earlier of the two.
    pub open spec fn earlier(self, other: Pos) -> Pos {
        if other.before(self) {
            other
        } else {
            self
        }
    }

    /// The later of the two.
    pub open spec fn later(self, other: Pos) -> Pos {
        if self.before(other) {
            other
        } else {
            self
        }
    }

    pub open spec fn fits(self) -> bool {
        &&& 0 <= self.row <= u32::MAX
        &&& 0 <= self.column <= u32::MAX
    }
}

impl View for Point {
    type V = Pos;

    open spec fn view(&self) -> Pos {
        Pos { row: self.row as int, column: self.column as int }
    }
}

impl View for PointUtf16 {
    type V = Pos;

    open spec fn view(&self) -> Pos {
        Pos { row: self.row as int, column: self.column as int }
    }
}

impl View for OffsetUtf16 {
    type V = int;

    open spec fn view(&self) -> int {
        self.0 as int
    }
}

impl Point {
    pub fn new(row: u32, column: u32) -> (r: Self)
        ensures
            r.row == row,
            r.column == column,
    {
        Point { row, column }
    }

    pub fn zero() -> (r: Self)
        ensures
            r@ == Pos::zero(),
    {
        Point { row: 0, column: 0 }
    }

    /// Whether `self` comes before `other` in reading order.
    pub fn before(&self, other: &Self) -> (r: bool)
        ensures
            r == self@.before(other@),
    {
        self.row < other.row || (self.row == other.row && self.column < other.column)
    }

    pub fn plus(self, other: Self) -> (r: Self)
        requires
            self@.plus(other@).fits(),
        ensures
            r@ == self@.plus(other@),
    {
        if other.row == 0 {
            Point { row: self.row, column: self.column + other.column }
        } else {
            Point { row: self.row + other.row, column: other.column }
        }
    }

    pub fn minus(self, other: Self) -> (r: Self)
        requires
            other@.not_after(self@),
        ensures
            r@ == self@.minus(other@),
    {
        if self.row == other.row {
            Point { row: 0, column: self.column - other.column }
        } else {
            Point { row: self.row - other.row, column: self.column }
        }
    }

    pub fn saturating_minus(self, other: Self) -> (r: Self)
        ensures
            r@ == self@.saturating_minus(other@),
    {
        if self.before(&other) {
            Point::zero()
        } else {
            self.minus(other)
        }
    }

    pub fn earlier(self, other: Self) -> (r: Self)
        ensures
            r@ == self@.earlier(other@),
    {
        if other.before(&self) {
            other
        } else {
            self
        }
    }

    pub fn later(self, other: Self) -> (r: Self)
        ensures
            r@ == self@.later(other@),
    {
        if self.before(&other) {
            other
        } else {
            self
        }
    }
}

impl PointUtf16 {
    pub fn new(row: u32, column: u32) -> (r: Self)
        ensures
            r.row == row,
            r.column == column,
    {
        PointUtf16 { row, column }
    }

    pub fn zero() -> (r: Self)
        ensures
            r@ == Pos::zero(),
    {
        PointUtf16 { row: 0, column: 0 }
    }

    /// Whether `self` comes before `other` in reading order.
    pub fn before(&self, other: &Self) -> (r: bool)
        ensures
            r == self@.before(other@),
    {
        self.row < other.row || (self.row == other.row && self.column < other.column)
    }

    pub fn plus(self, other: Self) -> (r: Self)
        requires
            self@.plus(other@).fits(),
        ensures
            r@ == self@.plus(other@),
    {
        if other.row == 0 {
            PointUtf16 { row: self.row, column: self.column + other.column }
        } else {
            PointUtf16 { row: self.row + other.row, column: other.column }
        }
    }

    pub fn minus(self, other: Self) -> (r: Self)
        requires
            other@.not_after(self@),
        ensures
            r@ == self@.minus(other@),
    {
        if self.row == other.row {
            PointUtf16 { row: 0, column: self.column - other.column }
        } else {
            PointUtf16 { row: self.row - other.row, column: self.column }
        }
    }

    pub fn saturating_minus(self, other: Self) -> (r: Self)
        ensures
            r@ == self@.saturating_minus(other@),
    {
        if self.before(&other) {
            PointUtf16::zero()
        } else {
            self.minus(other)
        }
    }
}

// ---------------------------------------------------------------------------
// Summaries
// ---------------------------------------------------------------------------

/// The mathematical value of a [`TextSummary`].
pub struct Summary {
    pub len: int,
    pub len_utf16: int,
    pub lines: Pos,
    pub first_line_chars: int,
    pub last_line_chars: int,
    pub last_line_len_utf16: int,
    pub longest_row: int,
    pub longest_row_chars: int,
}

impl Summary {
    /// The summary of the empty text.
    pub open spec fn zero() -> Summary {
        Summary {
            len: 0,
            len_utf16: 0,
            lines: Pos::zero(),
            first_line_chars: 0,
            last_line_chars: 0,
            last_line_len_utf16: 0,
            longest_row: 0,
            longest_row_chars: 0,
        }
    }

    /// The position behind the last byte, its column in UTF-16 code units.
    pub open spec fn lines_utf16(self) -> Pos {
        Pos { row: self.lines.row, column: self.last_line_len_utf16 }
    }

    /// The summary of a text that grows by the byte `b`.
    pub open spec fn step(self, b: u8) -> Summary {
        if b == NEWLINE {
            Summary {
                len: self.len + 1,
                len_utf16: self.len_utf16 + 1,
                lines: Pos { row: self.lines.row + 1, column: 0 },
                last_line_chars: 0,
                last_line_len_utf16: 0,
                ..self
            }
        } else {
            let chars = self.last_line_chars + chars_of(b);
            Summary {
                len: self.len + 1,
                len_utf16: self.len_utf16 + utf16_units(b),
                lines: Pos { row: self.lines.row, column: self.lines.column + 1 },
                first_line_chars: if self.lines.row == 0 {
                    chars
                } else {
                    self.first_line_chars
                },
                last_line_chars: chars,
                last_line_len_utf16: self.last_line_len_utf16 + utf16_units(b),
                longest_row: if chars > self.longest_row_chars {
                    self.lines.row
                } else {
                    self.longest_row
                },
                longest_row_chars: if chars > self.longest_row_chars {
                    chars
                } else {
                    self.longest_row_chars
                },
            }
        }
    }

    /// The summary of a text followed by another, from the two summaries.
    #[verifier::opaque]
    pub open spec fn join(self, other: Summary) -> Summary {
        let joined = self.last_line_chars + other.first_line_chars;
        let (row, chars) = if joined > self.longest_row_chars {
            (self.lines.row, joined)
        } else {
            (self.longest_row, self.longest_row_chars)
        };
        Summary {
            len: self.len + other.len,
            len_utf16: self.len_utf16 + other.len_utf16,
            lines: self.lines.plus(other.lines),
            first_line_chars: if self.lines.row == 0 {
                joined
            } else {
                self.first_line_chars
            },
            last_line_chars: if other.lines.row == 0 {
                joined
            } else {
                other.last_line_chars
            },
            last_line_len_utf16: if other.lines.row == 0 {
                self.last_line_len_utf16 + other.last_line_len_utf16
            } else {
                other.last_line_len_utf16
            },
            longest_row: if other.longest_row_chars > chars {
                self.lines.row + other.longest_row
            } else {
                row
            },
            longest_row_chars: if other.longest_row_chars > chars {
                other.longest_row_chars
            } else {
                chars
            },
        }
    }

    /// What holds of the summary of every text of `len` bytes.
    pub open spec fn sound(self) -> bool {
        &&& 0 <= self.lines.row <= self.len
        &&& 0 <= self.lines.column <= self.len
        &&& 0 <= self.len_utf16 <= 2 * self.len
        &&& 0 <= self.first_line_chars <= self.longest_row_chars
        &&& 0 <= self.last_line_chars <= self.longest_row_chars <= self.len
        &&& 0 <= self.last_line_len_utf16 <= self.len_utf16
        &&& 0 <= self.longest_row <= self.lines.row
        &&& self.lines.row == 0 ==> {
            &&& self.first_line_chars == self.last_line_chars
            &&& self.longest_row_chars == self.last_line_chars
            &&& self.lines.column == self.len
            &&& self.last_line_len_utf16 == self.len_utf16
        }
    }
}

impl View for TextSummary {
    type V = Summary;

    open spec fn view(&self) -> Summary {
        Summary {
            len: self.len as int,
            len_utf16: self.len_utf16@,
            lines: self.lines@,
            first_line_chars: self.first_line_chars as int,
            last_line_chars: self.last_line_chars as int,
            last_line_len_utf16: self.last_line_len_utf16 as int,
            longest_row: self.longest_row as int,
            longest_row_chars: self.longest_row_chars as int,
        }
    }
}

pub const NEWLINE: u8 = 10;

/// Whether `b` continues a character rather than starting one.
pub open spec fn is_continuation(b: u8) -> bool {
    0x80 <= b < 0xc0
}

/// How many characters the byte `b` starts.
pub open spec fn chars_of(b: u8) -> int {
    if is_continuation(b) {
        0
    } else {
        1
    }
}

/// How many UTF-16 code units the character takes that the byte `b` starts,
/// or zero where it starts none.
pub open spec fn utf16_units(b: u8) -> int {
    if is_continuation(b) {
        0
    } else if b >= 0xf0 {
        2
    } else {
        1
    }
}

/// What the text `t` measures.
#[verifier::opaque]
pub open spec fn summarize(t: Seq<u8>) -> Summary
    decreases t.len(),
{
    if t.len() == 0 {
        Summary::zero()
    } else {
        summarize(t.drop_last()).step(t.last())
    }
}

/// The row and byte column of the offset `o`.
pub open spec fn point_at(t: Seq<u8>, o: int) -> Pos {
    summarize(t.take(o)).lines
}

/// The row and UTF-16 column of the offset `o`.
pub open spec fn point_utf16_at(t: Seq<u8>, o: int) -> Pos {
    summarize(t.take(o)).lines_utf16()
}

/// The UTF-16 offset of the offset `o`.
pub open spec fn offset_utf16_at(t: Seq<u8>, o: int) -> int {
    summarize(t.take(o)).len_utf16
}

/// Whether a character starts or the text ends at the offset `o`.
pub open spec fn is_boundary(t: Seq<u8>, o: int) -> bool {
    &&& 0 <= o <= t.len()
    &&& (o == 0 || o == t.len() || !is_continuation(t[o]))
}

pub proof fn lemma_summary_sound(t: Seq<u8>)
    ensures
        summarize(t).sound(),
        summarize(t).len == t.len(),
    decreases t.len(),
{
    reveal(summarize);
    if t.len() > 0 {
        lemma_summary_sound(t.drop_last());
    }
}

/// How the lengths and positions of a joined text come about.
pub proof fn lemma_join_parts(a: Summary, b: Summary)
    ensures
        a.join(b).len == a.len + b.len,
        a.join(b).len_utf16 == a.len_utf16 + b.len_utf16,
        a.join(b).lines == a.lines.plus(b.lines),
        a.join(b).lines_utf16() == a.lines_utf16().plus(b.lines_utf16()),
{
    reveal(Summary::join);
}

/// A text measures what its two parts measure, joined.
pub proof fn lemma_summarize_concat(a: Seq<u8>, b: Seq<u8>)
    ensures
        summarize(a + b) == summarize(a).join(summarize(b)),
    decreases b.len(),
{
    reveal(summarize);
    reveal(Summary::join);
    lemma_summary_sound(a);
    if b.len() == 0 {
        assert(a + b =~= a);
    } else {
        let c = b.drop_last();
        lemma_summarize_concat(a, c);
        lemma_summary_sound(c);
        assert((a + b).drop_last() =~= a + c);
        assert((a + b).last() == b.last());
    }
}

/// `point_at`, `point_utf16_at` and `offset_utf16_at` grow with the offset.
pub proof fn lemma_positions_grow(t: Seq<u8>, a: int, b: int)
    requires
        0 <= a < b <= t.len(),
    ensures
        point_at(t, a).before(point_at(t, b)),
        point_utf16_at(t, a).not_after(point_utf16_at(t, b)),
        offset_utf16_at(t, a) <= offset_utf16_at(t, b),
        !is_continuation(t[a]) ==> {
            &&& point_utf16_at(t, a).before(point_utf16_at(t, b))
            &&& offset_utf16_at(t, a) < offset_utf16_at(t, b)
        },
    decreases b - a,
{
    reveal(summarize);
    assert(t.take(b).drop_last() =~= t.take(b - 1));
    assert(t.take(b).last() == t[b - 1]);
    lemma_summary_sound(t.take(b - 1));
    if a < b - 1 {
        lemma_positions_grow(t, a, b - 1);
    }
}

/// What `t` measures up to `b` is what it measures up to `a`, joined with what
/// the stretch between them measures.
pub proof fn lemma_take_split(t: Seq<u8>, a: int, b: int)
    requires
        0 <= a <= b <= t.len(),
    ensures
        summarize(t.take(b)) == summarize(t.take(a)).join(summarize(t.subrange(a, b))),
{
    assert(t.take(b) =~= t.take(a) + t.subrange(a, b));
    lemma_summarize_concat(t.take(a), t.subrange(a, b));
}

/// The [`TextSummary`] with a given value.
pub open spec fn text_summary_with(s: Summary) -> TextSummary {
    TextSummary {
        len: s.len as usize,
        len_utf16: OffsetUtf16(s.len_utf16 as usize),
        lines: Point { row: s.lines.row as u32, column: s.lines.column as u32 },
        first_line_chars: s.first_line_chars as u32,
        last_line_chars: s.last_line_chars as u32,
        last_line_len_utf16: s.last_line_len_utf16 as u32,
        longest_row: s.longest_row as u32,
        longest_row_chars: s.longest_row_chars as u32,
    }
}

impl TextSummary {
    pub fn zero() -> (r: Self)
        ensures
            r@ == Summary::zero(),
    {
        TextSummary {
            len: 0,
            len_utf16: OffsetUtf16(0),
            lines: Point { row: 0, column: 0 },
            first_line_chars: 0,
            last_line_chars: 0,
            last_line_len_utf16: 0,
            longest_row: 0,
            longest_row_chars: 0,
        }
    }

    /// The position behind the last byte, its column in UTF-16 code units.
    pub fn lines_utf16(&self) -> (r: PointUtf16)
        ensures
            r@ == self@.lines_utf16(),
    {
        PointUtf16 { row: self.lines.row, column: self.last_line_len_utf16 }
    }

    /// Adds the byte `b` to the text.
    pub fn push_byte(&mut self, b: u8)
        requires
            old(self)@.sound(),
            old(self).len < MAX_TEXT_LEN,
        ensures
            final(self)@ == old(self)@.step(b),
    {
        self.len = self.len + 1;
        if b == NEWLINE {
            self.len_utf16 = OffsetUtf16(self.len_utf16.0 + 1);
            self.lines = Point { row: self.lines.row + 1, column: 0 };
            self.last_line_chars = 0;
            self.last_line_len_utf16 = 0;
        } else {
            let chars: u32 = if 0x80 <= b && b < 0xc0 {
                0
            } else {
                1
            };
            let units: u32 = if 0x80 <= b && b < 0xc0 {
                0
            } else if b >= 0xf0 {
                2
            } else {
                1
            };
            self.len_utf16 = OffsetUtf16(self.len_utf16.0 + units as usize);
            self.lines = Point { row: self.lines.row, column: self.lines.column + 1 };
            self.last_line_chars = self.last_line_chars + chars;
            self.last_line_len_utf16 = self.last_line_len_utf16 + units;
            if self.lines.row == 0 {
                self.first_line_chars = self.last_line_chars;
            }
            if self.last_line_chars > self.longest_row_chars {
                self.longest_row = self.lines.row;
                self.longest_row_chars = self.last_line_chars;
            }
        }
    }

    /// Adds a text that measures `other` behind this one.
    pub fn append(&mut self, other: &TextSummary)
        requires
            old(self)@.sound(),
            other@.sound(),
            old(self).len + other.len <= MAX_TEXT_LEN,
        ensures
            final(self)@ == old(self)@.join(other@),
    {
        proof {
            reveal(Summary::join);
        }
        let joined_chars: u32 = self.last_line_chars + other.first_line_chars;
        if joined_chars > self.longest_row_chars {
            self.longest_row = self.lines.row;
            self.longest_row_chars = joined_chars;
        }
        if other.longest_row_chars > self.longest_row_chars {
            self.longest_row = self.lines.row + other.longest_row;
            self.longest_row_chars = other.longest_row_chars;
        }
        if self.lines.row == 0 {
            self.first_line_chars = joined_chars;
        }
        if other.lines.row == 0 {
            self.last_line_chars = joined_chars;
            self.last_line_len_utf16 = self.last_line_len_utf16 + other.last_line_len_utf16;
        } else {
            self.last_line_chars = other.last_line_chars;
            self.last_line_len_utf16 = other.last_line_len_utf16;
        }
        self.len = self.len + other.len;
        self.len_utf16 = OffsetUtf16(self.len_utf16.0 + other.len_utf16.0);
        self.lines = self.lines.plus(other.lines);
    }

    /// What the bytes from `start` to `end` measure.
    pub fn of_range(bytes: &[u8], start: usize, end: usize) -> (r: TextSummary)
        requires
            start <= end <= bytes@.len(),
            bytes@.len() <= MAX_TEXT_LEN,
        ensures
            r@ == summarize(bytes@.subrange(start as int, end as int)),
            r@.sound(),
    {
        let mut summary = TextSummary::zero();
        let mut i: usize = start;
        proof {
            reveal(summarize);
            assert(bytes@.subrange(start as int, start as int) =~= Seq::<u8>::empty());
        }
        while i < end
            invariant
                start <= i <= end <= bytes@.len(),
                bytes@.len() <= MAX_TEXT_LEN,
                summary@ == summarize(bytes@.subrange(start as int, i as int)),
                summary@.sound(),
                summary.len == i - start,
            decreases end - i,
        {
            proof {
                reveal(summarize);
                let grown = bytes@.subrange(start as int, i + 1);
                assert(grown.drop_last() =~= bytes@.subrange(start as int, i as int));
                assert(grown.last() == bytes@[i as int]);
                lemma_summary_sound(grown);
            }
            summary.push_byte(bytes[i]);
            i = i + 1;
        }
        summary
    }
}

/// Something that a text can be measured in: a [`TextSummary`] or a part of
/// one.
pub trait TextDimension: Sized {
    /// Whether `self` is what a text with the summary `s` measures.
    spec fn measures(&self, s: Summary) -> bool;

    /// What a text measures that is followed by another.
    spec fn followed_by(self, other: Self) -> Self;

    fn from_text_summary(summary: &TextSummary) -> (r: Self)
        ensures
            r.measures(summary@),
    ;

    /// A summary determines what is measured.
    proof fn lemma_measured(a: Self, b: Self, s: Summary)
        requires
            a.measures(s),
            b.measures(s),
        ensures
            a == b,
    ;

    /// What two texts measure adds up to what they measure together.
    proof fn lemma_followed_by(a: Self, b: Self, both: Self, s: Summary, t: Summary)
        requires
            a.measures(s),
            b.measures(t),
            both.measures(s.join(t)),
        ensures
            both == a.followed_by(b),
    ;
}

impl TextDimension for TextSummary {
    open spec fn measures(&self, s: Summary) -> bool {
        self@ == s
    }

    open spec fn followed_by(self, other: Self) -> Self {
        text_summary_with(self@.join(other@))
    }

    fn from_text_summary(summary: &TextSummary) -> (r: Self) {
        *summary
    }

    proof fn lemma_measured(a: Self, b: Self, s: Summary) {
    }

    proof fn lemma_followed_by(a: Self, b: Self, both: Self, s: Summary, t: Summary) {
        reveal(Summary::join);
    }
}

impl TextDimension for usize {
    open spec fn measures(&self, s: Summary) -> bool {
        *self == s.len
    }

    open spec fn followed_by(self, other: Self) -> Self {
        (self + other) as usize
    }

    fn from_text_summary(summary: &TextSummary) -> (r: Self) {
        summary.len
    }

    proof fn lemma_measured(a: Self, b: Self, s: Summary) {
    }

    proof fn lemma_followed_by(a: Self, b: Self, both: Self, s: Summary, t: Summary) {
        reveal(Summary::join);
    }
}

impl TextDimension for OffsetUtf16 {
    open spec fn measures(&self, s: Summary) -> bool {
        self@ == s.len_utf16
    }

    open spec fn followed_by(self, other: Self) -> Self {
        OffsetUtf16((self.0 + other.0) as usize)
    }

    fn from_text_summary(summary: &TextSummary) -> (r: Self) {
        summary.len_utf16
    }

    proof fn lemma_measured(a: Self, b: Self, s: Summary) {
    }

    proof fn lemma_followed_by(a: Self, b: Self, both: Self, s: Summary, t: Summary) {
        reveal(Summary::join);
    }
}

impl TextDimension for Point {
    open spec fn measures(&self, s: Summary) -> bool {
        self@ == s.lines
    }

    open spec fn followed_by(self, other: Self) -> Self {
        Point {
            row: self@.plus(other@).row as u32,
            column: self@.plus(other@).column as u32,
        }
    }

    fn from_text_summary(summary: &TextSummary) -> (r: Self) {
        summary.lines
    }

    proof fn lemma_measured(a: Self, b: Self, s: Summary) {
    }

    proof fn lemma_followed_by(a: Self, b: Self, both: Self, s: Summary, t: Summary) {
        reveal(Summary::join);
    }
}

impl TextDimension for PointUtf16 {
    open spec fn measures(&self, s: Summary) -> bool {
        self@ == s.lines_utf16()
    }

    open spec fn followed_by(self, other: Self) -> Self {
        PointUtf16 {
            row: self@.plus(other@).row as u32,
            column: self@.plus(other@).column as u32,
        }
    }

    fn from_text_summary(summary: &TextSummary) -> (r: Self) {
        summary.lines_utf16()
    }

    proof fn lemma_measured(a: Self, b: Self, s: Summary) {
    }

    proof fn lemma_followed_by(a: Self, b: Self, both: Self, s: Summary, t: Summary) {
        reveal(Summary::join);
    }
}

/// A position that is looked for in a text.
pub trait Landmark: Sized {
    /// Whether the position lies before the end of a text that measures `s`.
    spec fn precedes(self, s: Summary) -> bool;

    /// Whether the position is the end of a text that measures `s`.
    spec fn coincides(self, s: Summary) -> bool;

    /// Whether the position lies in the last row of a text that measures `s`.
    spec fn shares_row(self, s: Summary) -> bool;

    fn is_before(&self, summary: &TextSummary) -> (r: bool)
        ensures
            r == self.precedes(summary@),
    ;

    fn is_at(&self, summary: &TextSummary) -> (r: bool)
        ensures
            r == self.coincides(summary@),
    ;

    fn is_in_row(&self, summary: &TextSummary) -> (r: bool)
        ensures
            r == self.shares_row(summary@),
    ;
}

impl Landmark for usize {
    open spec fn precedes(self, s: Summary) -> bool {
        self < s.len
    }

    open spec fn coincides(self, s: Summary) -> bool {
        self == s.len
    }

    open spec fn shares_row(self, s: Summary) -> bool {
        false
    }

    fn is_before(&self, summary: &TextSummary) -> (r: bool) {
        *self < summary.len
    }

    fn is_at(&self, summary: &TextSummary) -> (r: bool) {
        *self == summary.len
    }

    fn is_in_row(&self, summary: &TextSummary) -> (r: bool) {
        false
    }
}

impl Landmark for OffsetUtf16 {
    open spec fn precedes(self, s: Summary) -> bool {
        self@ < s.len_utf16
    }

    open spec fn coincides(self, s: Summary) -> bool {
        self@ == s.len_utf16
    }

    open spec fn shares_row(self, s: Summary) -> bool {
        false
    }

    fn is_before(&self, summary: &TextSummary) -> (r: bool) {
        self.0 < summary.len_utf16.0
    }

    fn is_at(&self, summary: &TextSummary) -> (r: bool) {
        self.0 == summary.len_utf16.0
    }

    fn is_in_row(&self, summary: &TextSummary) -> (r: bool) {
        false
    }
}

impl Landmark for Point {
    open spec fn precedes(self, s: Summary) -> bool {
        self@.before(s.lines)
    }

    open spec fn coincides(self, s: Summary) -> bool {
        self@ == s.lines
    }

    open spec fn shares_row(self, s: Summary) -> bool {
        self.row == s.lines.row
    }

    fn is_before(&self, summary: &TextSummary) -> (r: bool) {
        self.before(&summary.lines)
    }

    fn is_at(&self, summary: &TextSummary) -> (r: bool) {
        self.row == summary.lines.row && self.column == summary.lines.column
    }

    fn is_in_row(&self, summary: &TextSummary) -> (r: bool) {
        self.row == summary.lines.row
    }
}

impl Landmark for PointUtf16 {
    open spec fn precedes(self, s: Summary) -> bool {
        self@.before(s.lines_utf16())
    }

    open spec fn coincides(self, s: Summary) -> bool {
        self@ == s.lines_utf16()
    }

    open spec fn shares_row(self, s: Summary) -> bool {
        self.row == s.lines.row
    }

    fn is_before(&self, summary: &TextSummary) -> (r: bool) {
        self.before(&summary.lines_utf16())
    }

    fn is_at(&self, summary: &TextSummary) -> (r: bool) {
        self.row == summary.lines.row && self.column == summary.last_line_len_utf16
    }

    fn is_in_row(&self, summary: &TextSummary) -> (r: bool) {
        self.row == summary.lines.row
    }
}

/// Whether the search for `target` ends at the offset `o`: a character starts
/// there, and it is not before the target or it ends the target's row.
pub open spec fn found_at<T: Landmark>(t: Seq<u8>, target: T, o: int) -> bool {
    let s = summarize(t.take(o));
    &&& is_boundary(t, o)
    &&& (target.precedes(s) || target.coincides(s) || (target.shares_row(s) && t[o] == NEWLINE))
}

/// The first offset from `from` on at which the search for `target` ends, or
/// the end of the text.
pub open spec fn find<T: Landmark>(t: Seq<u8>, target: T, from: int) -> int
    decreases t.len() - from,
{
    if from >= t.len() {
        t.len() as int
    } else if found_at(t, target, from) {
        from
    } else {
        find(t, target, from + 1)
    }
}

pub proof fn lemma_find<T: Landmark>(t: Seq<u8>, target: T, from: int)
    requires
        0 <= from <= t.len(),
    ensures
        from <= find(t, target, from) <= t.len(),
        is_boundary(t, find(t, target, from)),
        find(t, target, from) < t.len() ==> found_at(t, target, find(t, target, from)),
        forall|o: int| from <= o < find(t, target, from) ==> !#[trigger] found_at(t, target, o),
    decreases t.len() - from,
{
    if from < t.len() && !found_at(t, target, from) {
        lemma_find(t, target, from + 1);
    }
}

/// A search ends where it is found to end and not before.
pub proof fn lemma_find_is<T: Landmark>(t: Seq<u8>, target: T, o: int)
    requires
        0 <= o <= t.len(),
        o < t.len() ==> found_at(t, target, o),
        forall|k: int| 0 <= k < o ==> !#[trigger] found_at(t, target, k),
    ensures
        find(t, target, 0) == o,
{
    lemma_find(t, target, 0);
}

/// A search for a position that is not before an offset ends there or behind.
pub proof fn lemma_find_point_from(t: Seq<u8>, target: Point, o: int)
    requires
        0 <= o <= t.len(),
        point_at(t, o).not_after(target@),
    ensures
        o <= find(t, target, 0) <= t.len(),
        is_boundary(t, find(t, target, 0)),
{
    reveal(summarize);
    lemma_find(t, target, 0);
    let r = find(t, target, 0);
    if r < o {
        lemma_positions_grow(t, r, o);
        if t[r] == NEWLINE {
            assert(t.take(r + 1).drop_last() =~= t.take(r));
            if r + 1 < o {
                lemma_positions_grow(t, r + 1, o);
            }
        }
    }
}

pub proof fn lemma_find_point_utf16_from(t: Seq<u8>, target: PointUtf16, o: int)
    requires
        0 <= o <= t.len(),
        point_utf16_at(t, o).not_after(target@),
        t.len() > 0 ==> !is_continuation(t[0]),
    ensures
        o <= find(t, target, 0) <= t.len(),
        is_boundary(t, find(t, target, 0)),
{
    reveal(summarize);
    lemma_find(t, target, 0);
    let r = find(t, target, 0);
    if r < o {
        lemma_positions_grow(t, r, o);
        if t[r] == NEWLINE {
            assert(t.take(r + 1).drop_last() =~= t.take(r));
            if r + 1 < o {
                lemma_positions_grow(t, r + 1, o);
            }
        }
    }
}

/// The offset of `target` in a text.
pub fn find_in<T: Landmark>(bytes: &[u8], target: &T) -> (r: usize)
    requires
        bytes@.len() <= MAX_TEXT_LEN,
    ensures
        r == find(bytes@, *target, 0),
        r <= bytes@.len(),
        is_boundary(bytes@, r as int),
{
    let mut summary = TextSummary::zero();
    let mut o: usize = 0;
    proof {
        reveal(summarize);
        assert(bytes@.take(0) =~= Seq::<u8>::empty());
        lemma_find(bytes@, *target, 0);
    }
    while o < bytes.len()
        invariant
            o <= bytes@.len(),
            bytes@.len() <= MAX_TEXT_LEN,
            summary@ == summarize(bytes@.take(o as int)),
            summary@.sound(),
            summary.len == o,
            find(bytes@, *target, 0) == find(bytes@, *target, o as int),
            is_boundary(bytes@, find(bytes@, *target, 0)),
            find(bytes@, *target, 0) <= bytes@.len(),
        decreases bytes@.len() - o,
    {
        let next: u8 = bytes[o];
        let starts_char: bool = o == 0 || next < 0x80 || next >= 0xc0;
        if starts_char && (target.is_before(&summary) || target.is_at(&summary) || (
        target.is_in_row(&summary) && next == NEWLINE)) {
            return o;
        }
        proof {
            reveal(summarize);
            let grown = bytes@.take(o + 1);
            assert(grown.drop_last() =~= bytes@.take(o as int));
            assert(grown.last() == bytes@[o as int]);
            lemma_summary_sound(grown);
        }
        summary.push_byte(next);
        o = o + 1;
    }
    o
}

/// Searching for the row and column of the start of a character finds it.
pub proof fn lemma_find_point(t: Seq<u8>, target: Point, o: int)
    requires
        is_boundary(t, o),
        target@ == point_at(t, o),
    ensures
        find(t, target, 0) == o,
{
    reveal(summarize);
    lemma_find(t, target, 0);
    let r = find(t, target, 0);
    if r < o {
        lemma_positions_grow(t, r, o);
        if t[r] == NEWLINE {
            lemma_positions_grow(t, r, r + 1);
            assert(t.take(r + 1).drop_last() =~= t.take(r));
            if r + 1 < o {
                lemma_positions_grow(t, r + 1, o);
            }
        }
    }
    if o < r {
        assert(found_at(t, target, o));
    }
}

/// Searching for the row and UTF-16 column of the start of a character finds
/// it.
pub proof fn lemma_find_point_utf16(t: Seq<u8>, target: PointUtf16, o: int)
    requires
        is_boundary(t, o),
        target@ == point_utf16_at(t, o),
        t.len() > 0 ==> !is_continuation(t[0]),
    ensures
        find(t, target, 0) == o,
{
    reveal(summarize);
    lemma_find(t, target, 0);
    let r = find(t, target, 0);
    if r < o {
        lemma_positions_grow(t, r, o);
        if t[r] == NEWLINE {
            lemma_positions_grow(t, r, r + 1);
            assert(t.take(r + 1).drop_last() =~= t.take(r));
            if r + 1 < o {
                lemma_positions_grow(t, r + 1, o);
            }
        }
    }
    if o < r {
        assert(found_at(t, target, o));
    }
}

/// Searching for the UTF-16 offset of the start of a character finds it.
pub proof fn lemma_find_offset_utf16(t: Seq<u8>, target: OffsetUtf16, o: int)
    requires
        is_boundary(t, o),
        target@ == offset_utf16_at(t, o),
        t.len() > 0 ==> !is_continuation(t[0]),
    ensures
        find(t, target, 0) == o,
{
    lemma_find(t, target, 0);
    let r = find(t, target, 0);
    if r < o {
        lemma_positions_grow(t, r, o);
    }
    if o < r {
        assert(found_at(t, target, o));
    }
}

} // verus!
