//! The word around a position.

use std::ops::Range;
use vstd::prelude::*;
use vstd::utf8::{decode_utf8, encode_scalar, encode_utf8, encode_utf8_decode_utf8};

use crate::position::ToOffset;
use crate::snapshot::MultiBufferSnapshot;
use crate::text::is_boundary;

verus! {

/// The kinds of characters, from the least to the greatest.
#[derive(Clone, Copy, Debug, PartialEq, Eq, PartialOrd, Ord, Structural)]
pub enum CharKind {
    Whitespace,
    Punctuation,
    Word,
}

impl CharKind {
    pub open spec fn rank(&self) -> int {
        match self {
            CharKind::Whitespace => 0,
            CharKind::Punctuation => 1,
            CharKind::Word => 2,
        }
    }

    fn is_below(&self, other: CharKind) -> (r: bool)
        ensures
            r == (self.rank() < other.rank()),
    {
        match self {
            CharKind::Whitespace => other != CharKind::Whitespace,
            CharKind::Punctuation => other == CharKind::Word,
            CharKind::Word => false,
        }
    }
}

/// The greater of the first kinds of two lists.
pub open spec fn word_kind(before: Seq<CharKind>, after: Seq<CharKind>) -> Option<CharKind> {
    if before.len() == 0 && after.len() == 0 {
        None
    } else if before.len() == 0 {
        Some(after[0])
    } else if after.len() == 0 || after[0].rank() <= before[0].rank() {
        Some(before[0])
    } else {
        Some(after[0])
    }
}

/// How many characters from `from` on are of a kind, up to a line break.
pub open spec fn run_of(
    chars: Seq<char>,
    kinds: Seq<CharKind>,
    kind: Option<CharKind>,
    from: int,
) -> int
    decreases chars.len() - from,
{
    if 0 <= from < chars.len() && from < kinds.len() && Some(kinds[from]) == kind && chars[from]
        != '\n' {
        1 + run_of(chars, kinds, kind, from + 1)
    } else {
        0
    }
}

/// How many bytes characters take.
pub open spec fn width(chars: Seq<char>) -> int
    decreases chars.len(),
{
    if chars.len() == 0 {
        0
    } else {
        width(chars.drop_last()) + encode_scalar(chars.last() as u32).len()
    }
}

proof fn lemma_width_concat(a: Seq<char>, b: Seq<char>)
    ensures
        width(a + b) == width(a) + width(b),
        0 <= width(a),
        0 <= width(b),
    decreases a.len() + b.len(),
{
    if b.len() == 0 {
        assert(a + b =~= a);
        if a.len() > 0 {
            lemma_width_concat(a.drop_last(), b);
        }
    } else {
        lemma_width_concat(a, b.drop_last());
        assert((a + b).drop_last() =~= a + b.drop_last());
        assert((a + b).last() == b.last());
    }
}

proof fn lemma_width_one(c: char)
    ensures
        width(seq![c]) == encode_scalar(c as u32).len(),
{
    assert(seq![c].drop_last() =~= Seq::<char>::empty());
    assert(width(Seq::<char>::empty()) == 0);
    assert(seq![c].last() == c);
}

/// Characters take as many bytes as their encoding has.
pub proof fn lemma_width(chars: Seq<char>)
    ensures
        width(chars) == encode_utf8(chars).len(),
        width(chars.reverse()) == width(chars),
    decreases chars.len(),
{
    if chars.len() > 0 {
        let rest = chars.drop_first();
        lemma_width(rest);
        assert(chars =~= seq![chars[0]] + rest);
        lemma_width_concat(seq![chars[0]], rest);
        lemma_width_one(chars[0]);
        assert(chars.reverse() =~= rest.reverse() + seq![chars[0]]);
        lemma_width_concat(rest.reverse(), seq![chars[0]]);
    } else {
        assert(chars.reverse() =~= chars);
    }
}

/// How many bytes a character takes.
fn char_width(c: char) -> (r: usize)
    ensures
        r == encode_scalar(c as u32).len(),
        1 <= r <= 4,
{
    let scalar: u32 = c as u32;
    if scalar <= 0x7f {
        1
    } else if scalar <= 0x7ff {
        2
    } else if scalar <= 0xffff {
        3
    } else {
        4
    }
}

/// How many bytes the characters take that are of a kind, up to a line break.
fn run_width(chars: &Vec<char>, kinds: &Vec<CharKind>, kind: Option<CharKind>) -> (r: usize)
    requires
        width(chars@) <= usize::MAX,
    ensures
        r == width(chars@.take(run_of(chars@, kinds@, kind, 0))),
        0 <= run_of(chars@, kinds@, kind, 0) <= chars@.len(),
        r <= width(chars@),
{
    let mut total: usize = 0;
    let mut k: usize = 0;
    assert(chars@.take(0) =~= Seq::<char>::empty());
    proof {
        assert(chars@.take(0) + chars@ =~= chars@);
        lemma_width_concat(chars@.take(0), chars@);
    }
    while k < chars.len() && k < kinds.len() && Some(kinds[k]) == kind && chars[k] != '\n'
        invariant
            width(chars@) <= usize::MAX,
            k <= chars@.len(),
            total == width(chars@.take(k as int)),
            total <= width(chars@),
            run_of(chars@, kinds@, kind, 0) == k + run_of(chars@, kinds@, kind, k as int),
        decreases chars@.len() - k,
    {
        proof {
            assert(chars@.take(k + 1).drop_last() =~= chars@.take(k as int));
            assert(chars@ =~= chars@.take(k + 1) + chars@.skip(k + 1));
            lemma_width_concat(chars@.take(k + 1), chars@.skip(k + 1));
        }
        total = total + char_width(chars[k]);
        k = k + 1;
    }
    total
}

impl MultiBufferSnapshot {
    /// The word around a position, and of which kind of characters it is made. The
    /// characters before the position, backwards, and those behind it have been
    /// classified.
    pub fn surrounding_word<T: ToOffset + Copy>(
        &self,
        start: T,
        kinds_before: &Vec<CharKind>,
        kinds_after: &Vec<CharKind>,
    ) -> (r: (Range<usize>, Option<CharKind>))
        requires
            self.wf(),
            start.is_position(*self),
            is_boundary(self.bytes(), start.offset(*self)),
        ensures
            ({
                let offset = start.offset(*self);
                let before = decode_utf8(self.bytes().take(offset)).reverse();
                let after = decode_utf8(self.bytes().skip(offset));
                let kind = word_kind(kinds_before@, kinds_after@);
                &&& r.1 == kind
                &&& r.0.start == offset - width(
                    before.take(run_of(before, kinds_before@, kind, 0)),
                )
                &&& r.0.end == offset + width(after.take(run_of(after, kinds_after@, kind, 0)))
                &&& r.0.end <= self.bytes().len()
            }),
    {
        let offset: usize = start.to_offset(self);
        let after = self.chars_at(start);
        let before = self.reversed_chars_at(start);
        let len: usize = self.len();
        proof {
            encode_utf8_decode_utf8(after@);
            encode_utf8_decode_utf8(before@.reverse());
            assert(before@.reverse().reverse() =~= before@);
            lemma_width(after@);
            lemma_width(before@.reverse());
        }
        let kind = if kinds_before.len() == 0 && kinds_after.len() == 0 {
            None
        } else if kinds_before.len() == 0 {
            Some(kinds_after[0])
        } else if kinds_after.len() == 0 {
            Some(kinds_before[0])
        } else if kinds_before[0].is_below(kinds_after[0]) {
            Some(kinds_after[0])
        } else {
            Some(kinds_before[0])
        };
        let back: usize = run_width(&before, kinds_before, kind);
        let forth: usize = run_width(&after, kinds_after, kind);
        (offset - back..offset + forth, kind)
    }
}

} // verus!
