use vstd::prelude::*;

verus! {

/// Mathematical primality: `n` is at least 2 and has no divisor strictly
/// between 1 and itself.
pub open spec fn is_prime_spec(n: int) -> bool {
    n >= 2 && forall|d: int| 2 <= d < n ==> #[trigger] (n % d) != 0
}

/// The verdict of the outside Miller-Rabin oracle on `n`.  The oracle
/// derives its witness bases from the decimal digits of `n` alone, so the
/// verdict is a fixed function of `n`; nothing further is assumed of it.
pub uninterp spec fn oracle_accepts(n: int) -> bool;

/// Relies on is_prime::is_prime: a Miller-Rabin primality test over the
/// decimal string of `n`, with witness bases chosen from the string's
/// length, so its verdict depends on `n` alone.
#[verifier::external_body]
fn is_prime_oracle(num: u128) -> (r: bool)
    ensures
        r == oracle_accepts(num as int),
{
    is_prime::is_prime(&num.to_string())
}

/// Asks the primality oracle for its verdict on `num`.
pub fn prime_check(num: u128) -> (r: bool)
    ensures
        r == oracle_accepts(num as int),
{
    is_prime_oracle(num)
}

/// Exhaustive trial division: an exact primality decision for 64-bit
/// values, kept as the slow reference against which the oracle can be
/// tested.
pub fn is_prime_trial(n: u64) -> (r: bool)
    ensures
        r == is_prime_spec(n as int),
{
    if n < 2 {
        return false;
    }
    let mut d: u64 = 2;
    while d < n
        invariant
            2 <= d <= n,
            forall|k: int| 2 <= k < d ==> #[trigger] ((n as int) % k) != 0,
        decreases n - d,
    {
        if n % d == 0 {
            assert((n as int) % (d as int) == 0);
            return false;
        }
        d = d + 1;
    }
    true
}

} // verus!
