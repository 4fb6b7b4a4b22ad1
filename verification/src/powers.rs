//! Powers of two.

use vstd::prelude::*;

verus! {

/// Two to the power of `n`.
pub open spec fn pow2(n: nat) -> nat
    decreases n,
{
    if n == 0 {
        1
    } else {
        2 * pow2((n - 1) as nat)
    }
}

/// The two greatest powers of two that fit in `u32`.
pub proof fn lemma_pow2_values()
    ensures
        pow2(31) == 0x8000_0000,
        pow2(30) == 0x4000_0000,
{
    reveal_with_fuel(pow2, 32);
}

/// Powers of two rise with the exponent, and none is zero.
pub proof fn lemma_pow2_grows(a: nat, b: nat)
    requires
        a <= b,
    ensures
        pow2(a) <= pow2(b),
        pow2(a) >= 1,
    decreases b,
{
    if a < b {
        lemma_pow2_grows(a, (b - 1) as nat);
    } else if a > 0 {
        lemma_pow2_grows((a - 1) as nat, (a - 1) as nat);
    }
}

} // verus!
