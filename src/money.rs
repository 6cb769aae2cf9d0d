use vstd::prelude::*;

verus! {

/// Fine-grained amounts are written in millionths of a dollar; a cent is this many.
pub const MICROS_PER_CENT: u64 = 10_000;

/// `amount` rounded to the nearest whole cent, halves rounding up.
pub open spec fn rounded_to_cent(amount: int) -> int {
    let c = MICROS_PER_CENT as int;
    if amount % c >= c / 2 {
        (amount / c + 1) * c
    } else {
        (amount / c) * c
    }
}

/// Rounds an amount in millionths of a dollar to the nearest whole cent
/// (still in millionths), halves rounding up.
pub fn round_to_cent(amount: u64) -> (r: u64)
    ensures
        r == rounded_to_cent(amount as int),
        r % MICROS_PER_CENT == 0,
{
    let q = amount / MICROS_PER_CENT;
    let rem = amount % MICROS_PER_CENT;
    if rem >= MICROS_PER_CENT / 2 {
        proof {
            let a = amount as int;
            let qi = q as int;
            assert((qi + 1) * 10000 <= u64::MAX) by (nonlinear_arith)
                requires a == qi * 10000 + rem, rem >= 5000, a <= u64::MAX;
        }
        (q + 1) * MICROS_PER_CENT
    } else {
        q * MICROS_PER_CENT
    }
}

/// Rounding to the cent a second time changes nothing.
pub proof fn lemma_round_to_cent_idempotent(amount: int)
    requires
        amount >= 0,
    ensures
        rounded_to_cent(rounded_to_cent(amount)) == rounded_to_cent(amount),
{
    let c = MICROS_PER_CENT as int;
    let r = rounded_to_cent(amount);
    let k = r / c;
    assert(r == k * c && r % c == 0) by (nonlinear_arith)
        requires
            c == 10000,
            r == (if amount % c >= c / 2 { (amount / c + 1) * c } else { (amount / c) * c }),
            k == r / c;
}

} // verus!
