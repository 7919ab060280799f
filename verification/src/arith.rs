use vstd::prelude::*;

verus! {

/// `10^e` as a mathematical integer.
pub open spec fn pow10(e: nat) -> int
    decreases e,
{
    if e == 0 {
        1
    } else {
        10 * pow10((e - 1) as nat)
    }
}

/// `16^e` as a mathematical integer.
pub open spec fn pow16(e: nat) -> int
    decreases e,
{
    if e == 0 {
        1
    } else {
        16 * pow16((e - 1) as nat)
    }
}

pub proof fn lemma_pow10_pos(e: nat)
    ensures
        pow10(e) >= 1,
    decreases e,
{
    if e > 0 {
        lemma_pow10_pos((e - 1) as nat);
    }
}

pub proof fn lemma_pow16_pos(e: nat)
    ensures
        pow16(e) >= 1,
    decreases e,
{
    if e > 0 {
        lemma_pow16_pos((e - 1) as nat);
    }
}

pub proof fn lemma_pow10_le(a: nat, b: nat)
    requires
        a <= b,
    ensures
        pow10(a) <= pow10(b),
    decreases b,
{
    if a < b {
        lemma_pow10_le(a, (b - 1) as nat);
        lemma_pow10_pos((b - 1) as nat);
    }
}

pub proof fn lemma_pow16_le(a: nat, b: nat)
    requires
        a <= b,
    ensures
        pow16(a) <= pow16(b),
    decreases b,
{
    if a < b {
        lemma_pow16_le(a, (b - 1) as nat);
        lemma_pow16_pos((b - 1) as nat);
    }
}

/// The widest value the driver ever folds into an integer is 37 digits,
/// which stays below `2^128`.
pub proof fn lemma_pow10_37_fits_u128()
    ensures
        pow10(37) <= u128::MAX,
{
    reveal_with_fuel(pow10, 38);
    assert(pow10(37) == 10000000000000000000000000000000000000int);
}

/// An 18-nibble accumulator stays below `2^128`.
pub proof fn lemma_pow16_18_fits_u128()
    ensures
        pow16(18) <= u128::MAX,
{
    reveal_with_fuel(pow16, 19);
    assert(pow16(18) == 0x1000000000000000000int);
}

} // verus!
