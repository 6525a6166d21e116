//! Decimal text of a counter value.
//!
//! A substituted counter value appears in the output as its decimal digits:
//! the most significant digit first, no sign, no leading zero except for the
//! value zero itself.

use vstd::prelude::*;

verus! {

/// The decimal digits of `n`, most significant first, as ASCII bytes.
pub open spec fn decimal_digits(n: nat) -> Seq<u8>
    decreases n,
{
    if n < 10 {
        seq![(48 + n) as u8]
    } else {
        decimal_digits(n / 10).push((48 + n % 10) as u8)
    }
}

/// Every byte of a decimal rendering is an ASCII digit.
pub proof fn lemma_decimal_digits_are_digits(n: nat)
    ensures
        forall|j: int|
            0 <= j < decimal_digits(n).len() ==> 48 <= #[trigger] decimal_digits(n)[j] <= 57,
    decreases n,
{
    if n >= 10 {
        lemma_decimal_digits_are_digits(n / 10);
        assert forall|j: int| 0 <= j < decimal_digits(n).len() implies 48 <= #[trigger] decimal_digits(
            n,
        )[j] <= 57 by {
            if j < decimal_digits(n / 10).len() {
                assert(decimal_digits(n)[j] == decimal_digits(n / 10)[j]);
            } else {
                assert(decimal_digits(n)[j] == (48 + n % 10) as u8);
            }
        }
    }
}

/// Renders `n` in decimal.
pub fn to_decimal(n: usize) -> (r: Vec<u8>)
    ensures
        r@ == decimal_digits(n as nat),
    decreases n,
{
    if n < 10 {
        let mut v: Vec<u8> = Vec::new();
        v.push(48 + n as u8);
        v
    } else {
        let mut v = to_decimal(n / 10);
        v.push(48 + (n % 10) as u8);
        v
    }
}

} // verus!
