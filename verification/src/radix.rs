//! Digit strings read as numbers. The search measures the work it has left as
//! such a number, so that a step that lowers one digit and leaves the more
//! significant ones alone is a step towards the end.

use vstd::prelude::*;

verus! {

/// The number that `digits` writes in base `base`, most significant digit
/// first.
pub open spec fn radix_value(digits: Seq<int>, base: int) -> int
    decreases digits.len(),
{
    if digits.len() == 0 {
        0
    } else {
        radix_value(digits.drop_last(), base) * base + digits.last()
    }
}

/// Every digit lies in `0..base`.
pub open spec fn digits_below(digits: Seq<int>, base: int) -> bool {
    forall|i: int| 0 <= i < digits.len() ==> 0 <= #[trigger] digits[i] < base
}

/// A digit string in a positive base writes a natural number.
pub proof fn lemma_radix_nonnegative(digits: Seq<int>, base: int)
    requires
        base > 0,
        digits_below(digits, base),
    ensures
        radix_value(digits, base) >= 0,
    decreases digits.len(),
{
    if digits.len() > 0 {
        let rest = digits.drop_last();
        assert forall|i: int| 0 <= i < rest.len() implies 0 <= #[trigger] rest[i] < base by {
            assert(rest[i] == digits[i]);
        }
        lemma_radix_nonnegative(rest, base);
        let r = radix_value(rest, base);
        assert(r * base >= 0) by (nonlinear_arith)
            requires
                r >= 0,
                base > 0,
        ;
    }
}

/// Of two digit strings of one length that agree before position `k`, the one
/// with the smaller digit at `k` writes the smaller number, whatever follows.
pub proof fn lemma_radix_lower_digit(a: Seq<int>, b: Seq<int>, base: int, k: int)
    requires
        base > 0,
        a.len() == b.len(),
        digits_below(a, base),
        digits_below(b, base),
        0 <= k < a.len(),
        forall|j: int| 0 <= j < k ==> a[j] == b[j],
        a[k] < b[k],
    ensures
        radix_value(a, base) < radix_value(b, base),
    decreases a.len(),
{
    let a0 = a.drop_last();
    let b0 = b.drop_last();
    let m = a.len() - 1;
    if k == m {
        assert(a0 =~= b0);
    } else {
        assert forall|i: int| 0 <= i < a0.len() implies 0 <= #[trigger] a0[i] < base by {
            assert(a0[i] == a[i]);
        }
        assert forall|i: int| 0 <= i < b0.len() implies 0 <= #[trigger] b0[i] < base by {
            assert(b0[i] == b[i]);
        }
        lemma_radix_lower_digit(a0, b0, base, k);
        let ra = radix_value(a0, base);
        let rb = radix_value(b0, base);
        assert(ra * base + base <= rb * base) by (nonlinear_arith)
            requires
                ra + 1 <= rb,
                base > 0,
        ;
    }
}

} // verus!
