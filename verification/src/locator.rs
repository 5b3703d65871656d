//! Locators say in which order the excerpts stand.

use std::sync::Arc;
use vstd::prelude::*;

use crate::shared::share;

verus! {

/// A place in the order of excerpts. Between any two places there is another.
#[derive(Debug)]
pub struct Locator {
    pub digits: Arc<Vec<u64>>,
}

impl View for Locator {
    type V = Seq<u64>;

    open spec fn view(&self) -> Seq<u64> {
        self.digits@
    }
}

/// Whether `a` and `b` agree before `d`, and `a` is smaller there or ends.
pub open spec fn smaller_at(a: Seq<u64>, b: Seq<u64>, d: int) -> bool {
    &&& 0 <= d <= a.len()
    &&& d < b.len()
    &&& forall|i: int| 0 <= i < d ==> a[i] == b[i]
    &&& d < a.len() ==> a[d] < b[d]
}

/// The order of a dictionary.
#[verifier::opaque]
pub open spec fn digits_before(a: Seq<u64>, b: Seq<u64>) -> bool {
    exists|d: int| smaller_at(a, b, d)
}

pub open spec fn digit_or(a: Seq<u64>, k: int, missing: u64) -> u64 {
    if k < a.len() {
        a[k]
    } else {
        missing
    }
}

/// A little more than `low` where `high` leaves room for it.
pub open spec fn digit_between(low: u64, high: u64) -> int {
    if low < high {
        low + (high - low) / 0x1_0000_0000_0000
    } else {
        low as int
    }
}

/// The digits from the `k`-th on of the place between `lhs` and `rhs`.
pub open spec fn digits_between(lhs: Seq<u64>, rhs: Seq<u64>, k: int) -> Seq<u64>
    decreases
        (if lhs.len() >= rhs.len() {
            lhs.len()
        } else {
            rhs.len()
        }) - k,
{
    let low = digit_or(lhs, k, 0);
    let digit = digit_between(low, digit_or(rhs, k, u64::MAX)) as u64;
    if digit > low || (k >= lhs.len() && k >= rhs.len()) {
        seq![digit]
    } else {
        seq![digit] + digits_between(lhs, rhs, k + 1)
    }
}

/// Of two different locators one comes before the other.
pub proof fn lemma_order_total(a: Seq<u64>, b: Seq<u64>)
    ensures
        a == b || digits_before(a, b) || digits_before(b, a),
{
    lemma_order_total_from(a, b, 0);
}

proof fn lemma_order_total_from(a: Seq<u64>, b: Seq<u64>, k: int)
    requires
        0 <= k <= a.len(),
        k <= b.len(),
        forall|i: int| 0 <= i < k ==> a[i] == b[i],
    ensures
        a == b || digits_before(a, b) || digits_before(b, a),
    decreases a.len() - k,
{
    reveal(digits_before);
    if k < a.len() && k < b.len() && a[k] == b[k] {
        lemma_order_total_from(a, b, k + 1);
    } else if k == a.len() && k == b.len() {
        assert(a =~= b);
    } else if k < b.len() && (k == a.len() || a[k] < b[k]) {
        assert(smaller_at(a, b, k));
    } else {
        assert(smaller_at(b, a, k));
    }
}

/// No locator comes both before and behind another, nor before itself.
pub proof fn lemma_order_strict(a: Seq<u64>, b: Seq<u64>)
    requires
        digits_before(a, b),
    ensures
        a != b,
        !digits_before(b, a),
{
    reveal(digits_before);
    let d = choose|d: int| smaller_at(a, b, d);
    if digits_before(b, a) {
        let e = choose|e: int| smaller_at(b, a, e);
        if d < e {
            assert(b[d] == a[d]);
        }
        if e < d {
            assert(b[e] == a[e]);
        }
    }
}

pub proof fn lemma_order_transitive(a: Seq<u64>, b: Seq<u64>, c: Seq<u64>)
    requires
        digits_before(a, b),
        digits_before(b, c),
    ensures
        digits_before(a, c),
{
    reveal(digits_before);
    let d = choose|d: int| smaller_at(a, b, d);
    let e = choose|e: int| smaller_at(b, c, e);
    if d <= e {
        assert(smaller_at(a, c, d));
    } else {
        assert(smaller_at(a, c, e));
    }
}

/// What a locator between others must be given to lie between them.
pub open spec fn ends_nonzero(a: Seq<u64>) -> bool {
    a.len() > 0 && a.last() > 0
}

/// The place between two places lies between them.
pub proof fn lemma_between(lhs: Seq<u64>, rhs: Seq<u64>)
    requires
        digits_before(lhs, rhs),
        ends_nonzero(rhs),
    ensures
        digits_before(lhs, digits_between(lhs, rhs, 0)),
        digits_before(digits_between(lhs, rhs, 0), rhs),
        ends_nonzero(digits_between(lhs, rhs, 0)),
{
    reveal(digits_before);
    let between = digits_between(lhs, rhs, 0);
    lemma_between_digits(lhs, rhs, 0);
    let e = between.len() - 1;
    assert(smaller_at(lhs, between, if e < lhs.len() {
        e
    } else {
        lhs.len() as int
    }));
    let d = choose|d: int| smaller_at(lhs, rhs, d);
    let f = lemma_first_gap(lhs, rhs, d);
    if e < f {
        assert(digit_or(lhs, e, 0) == digit_or(rhs, e, u64::MAX));
    }
    assert(e >= f);
    assert(smaller_at(between, rhs, f));
}

/// The first digit at which `lhs`, filled up with zeros, is smaller than
/// `rhs`.
proof fn lemma_first_gap(lhs: Seq<u64>, rhs: Seq<u64>, d: int) -> (f: int)
    requires
        0 <= d < rhs.len(),
        ends_nonzero(rhs),
        forall|i: int| 0 <= i < d ==> digit_or(lhs, i, 0) == #[trigger] rhs[i],
        d < lhs.len() ==> lhs[d] < rhs[d],
    ensures
        d <= f < rhs.len(),
        forall|i: int| 0 <= i < f ==> digit_or(lhs, i, 0) == #[trigger] rhs[i],
        digit_or(lhs, f, 0) < rhs[f],
    decreases rhs.len() - d,
{
    if d < lhs.len() || rhs[d] > 0 {
        d
    } else {
        lemma_first_gap(lhs, rhs, d + 1)
    }
}

proof fn lemma_between_digits(lhs: Seq<u64>, rhs: Seq<u64>, k: int)
    requires
        0 <= k,
    ensures
        digits_between(lhs, rhs, k).len() > 0,
        forall|i: int|
            0 <= i < digits_between(lhs, rhs, k).len() - 1 ==> #[trigger] digits_between(
                lhs,
                rhs,
                k,
            )[i] == digit_or(lhs, k + i, 0),
        forall|i: int|
            0 <= i < digits_between(lhs, rhs, k).len() ==> #[trigger] digits_between(
                lhs,
                rhs,
                k,
            )[i] == digit_between(digit_or(lhs, k + i, 0), digit_or(rhs, k + i, u64::MAX)),
        digits_between(lhs, rhs, k).last() > digit_or(
            lhs,
            k + digits_between(lhs, rhs, k).len() - 1,
            0,
        ),
    decreases
        (if lhs.len() >= rhs.len() {
            lhs.len()
        } else {
            rhs.len()
        }) - k,
{
    let low = digit_or(lhs, k, 0);
    let digit = digit_between(low, digit_or(rhs, k, u64::MAX)) as u64;
    if digit > low || (k >= lhs.len() && k >= rhs.len()) {
    } else {
        lemma_between_digits(lhs, rhs, k + 1);
        let rest = digits_between(lhs, rhs, k + 1);
        let all = digits_between(lhs, rhs, k);
        assert(all == seq![digit] + rest);
        assert forall|i: int| 0 < i < all.len() implies #[trigger] all[i] == rest[i - 1] by {}
        assert(all.last() == rest.last());
    }
}

impl Clone for Locator {
    fn clone(&self) -> (r: Self)
        ensures
            r == *self,
    {
        Locator { digits: share(&self.digits) }
    }
}

impl Locator {
    /// The place before all others.
    pub fn min() -> (r: Self)
        ensures
            r@ == seq![0u64],
    {
        Locator { digits: Arc::new(vec![0u64]) }
    }

    /// The place behind all others.
    pub fn max() -> (r: Self)
        ensures
            r@ == seq![u64::MAX],
    {
        Locator { digits: Arc::new(vec![u64::MAX]) }
    }

    /// Whether `self` comes before `other`.
    pub fn before(&self, other: &Self) -> (r: bool)
        ensures
            r == digits_before(self@, other@),
    {
        let mut i: usize = 0;
        while i < self.digits.len() && i < other.digits.len() && self.digits[i]
            == other.digits[i]
            invariant
                i <= self@.len(),
                i <= other@.len(),
                forall|k: int| 0 <= k < i ==> self@[k] == other@[k],
            decreases self@.len() - i,
        {
            i = i + 1;
        }
        proof {
            reveal(digits_before);
        }
        let r: bool = i < other.digits.len() && (i == self.digits.len() || self.digits[i]
            < other.digits[i]);
        proof {
            if r {
                assert(smaller_at(self@, other@, i as int));
            } else if i == self@.len() && i == other@.len() {
                assert(self@ =~= other@);
                if digits_before(self@, other@) {
                    lemma_order_strict(self@, other@);
                }
            } else {
                assert(smaller_at(other@, self@, i as int));
                if digits_before(self@, other@) {
                    lemma_order_strict(self@, other@);
                }
            }
        }
        r
    }

    pub fn equals(&self, other: &Self) -> (r: bool)
        ensures
            r == (self@ == other@),
    {
        if self.digits.len() != other.digits.len() {
            return false;
        }
        let mut i: usize = 0;
        while i < self.digits.len()
            invariant
                i <= self@.len(),
                self@.len() == other@.len(),
                forall|k: int| 0 <= k < i ==> self@[k] == other@[k],
            decreases self@.len() - i,
        {
            if self.digits[i] != other.digits[i] {
                return false;
            }
            i = i + 1;
        }
        assert(self@ =~= other@);
        true
    }

    /// A place between `lhs` and `rhs`.
    pub fn between(lhs: &Self, rhs: &Self) -> (r: Self)
        ensures
            r@ == digits_between(lhs@, rhs@, 0),
            digits_before(lhs@, rhs@) && ends_nonzero(rhs@) ==> {
                &&& digits_before(lhs@, r@)
                &&& digits_before(r@, rhs@)
                &&& ends_nonzero(r@)
            },
    {
        let mut digits: Vec<u64> = Vec::new();
        let mut k: usize = 0;
        let mut done: bool = false;
        assert(digits@ + digits_between(lhs@, rhs@, 0) =~= digits_between(lhs@, rhs@, 0));
        while !done
            invariant
                k <= lhs@.len() || k <= rhs@.len(),
                !done ==> digits@ + digits_between(lhs@, rhs@, k as int) == digits_between(
                    lhs@,
                    rhs@,
                    0,
                ),
                done ==> digits@ == digits_between(lhs@, rhs@, 0),
            decreases
                (if done {
                    0
                } else {
                    1int
                }),
                (if lhs@.len() >= rhs@.len() {
                    lhs@.len()
                } else {
                    rhs@.len()
                }) - k,
        {
            let low: u64 = if k < lhs.digits.len() {
                lhs.digits[k]
            } else {
                0
            };
            let high: u64 = if k < rhs.digits.len() {
                rhs.digits[k]
            } else {
                u64::MAX
            };
            let gap: u64 = if low < high {
                high - low
            } else {
                0
            };
            let digit: u64 = low + gap / 0x1_0000_0000_0000;
            let ghost before = digits@;
            digits.push(digit);
            done = digit > low || (k >= lhs.digits.len() && k >= rhs.digits.len());
            proof {
                if done {
                    assert(digits@ =~= before + seq![digit]);
                } else {
                    assert(digits@ + digits_between(lhs@, rhs@, k + 1) =~= before + (seq![digit]
                        + digits_between(lhs@, rhs@, k + 1)));
                }
            }
            if !done {
                k = k + 1;
            }
        }
        proof {
            if digits_before(lhs@, rhs@) && ends_nonzero(rhs@) {
                lemma_between(lhs@, rhs@);
            }
        }
        Locator { digits: Arc::new(digits) }
    }
}

} // verus!
