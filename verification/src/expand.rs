use vstd::prelude::*;

use crate::digits::{digit_seq_ok, digits_to_number};
use crate::pal::{best_half, is_pal, pal_value};
use crate::primes::prime_check;

verus! {

/// One reported prime palindrome: its value, its digit length and the
/// absolute 1-based position of its first digit.
pub struct Palindrome {
    pub number: u128,
    pub n_digits: usize,
    pub position: u64,
}

/// Expands a confirmed symmetric run outward and keeps the widest
/// widening whose value the primality oracle accepts.
///
/// `palindrome` holds at least the 37 digits of the widest window the
/// driver ever tests, with the candidate center at index 18; `position`
/// is the absolute 1-based position of `palindrome[0]`.
pub fn find_prime_palindrome(palindrome: &[u64], min_width: usize, position: u64) -> (result:
    Option<Palindrome>)
    requires
        palindrome@.len() >= 37,
        digit_seq_ok(palindrome@.take(37)),
        3 <= min_width <= 37,
        min_width % 2 == 1,
        is_pal(palindrome@, 18, min_width as int / 2),
        position + 18 <= u64::MAX,
    ensures
        ({
            let best = best_half(palindrome@, 18, min_width as int / 2);
            match result {
                Some(p) => best >= 0 && p.n_digits == 2 * best + 1 && p.number as int == pal_value(
                    palindrome@,
                    18,
                    best,
                ) && p.position == position + 18 - best,
                None => best == -1,
            }
        }),
{
    let ghost w = palindrome@;
    let ghost hm = min_width as int / 2;
    let mut result: Option<Palindrome> = None;
    let mut h: usize = min_width / 2;
    proof {
        crate::pal::lemma_best_half_min(w, 18, hm);
    }
    loop
        invariant_except_break
            palindrome@ == w,
            w.len() >= 37,
            digit_seq_ok(w.take(37)),
            1 <= hm <= h <= 18,
            position + 18 <= u64::MAX,
            is_pal(w, 18, h as int),
            ({
                if best_half(w, 18, h as int) == -1 {
                    match result {
                        None => best_half(w, 18, hm) == -1,
                        Some(p) => best_half(w, 18, hm) >= 0 && p.n_digits == 2 * best_half(
                            w,
                            18,
                            hm,
                        ) + 1 && p.number as int == pal_value(w, 18, best_half(w, 18, hm))
                            && p.position == position + 18 - best_half(w, 18, hm),
                    }
                } else {
                    best_half(w, 18, hm) == best_half(w, 18, h as int)
                }
            }),
        ensures
            palindrome@ == w,
            ({
                match result {
                    None => best_half(w, 18, hm) == -1,
                    Some(p) => best_half(w, 18, hm) >= 0 && p.n_digits == 2 * best_half(w, 18, hm)
                        + 1 && p.number as int == pal_value(w, 18, best_half(w, 18, hm))
                        && p.position == position + 18 - best_half(w, 18, hm),
                }
            }),
        decreases 19 - h,
    {
        let n_digits: usize = 2 * h + 1;
        let run = vstd::slice::slice_subrange(palindrome, 18 - h, 19 + h);
        proof {
            assert(digit_seq_ok(run@.take(n_digits as int))) by {
                assert(run@.take(n_digits as int) =~= w.subrange(18 - h, 19 + h));
                assert forall|j: int| 0 <= j < n_digits implies #[trigger] w.subrange(
                    18 - h,
                    19 + h,
                )[j] < 10 by {
                    assert(w.take(37)[18 - h + j] < 10);
                }
            }
        }
        let number = digits_to_number(run, n_digits);
        proof {
            assert(run@.take(n_digits as int) =~= w.subrange(18 - h, 19 + h));
            assert(number as int == pal_value(w, 18, h as int));
            crate::pal::lemma_best_half_min(w, 18, h as int + 1);
        }
        if prime_check(number) {
            result = Some(
                Palindrome { number, n_digits, position: position + (18 - h) as u64 },
            );
        }
        if h == 18 {
            proof {
                assert(best_half(w, 18, h as int + 1) == -1);
            }
            break;
        }
        if palindrome[17 - h] != palindrome[19 + h] {
            proof {
                assert(w.take(37)[17 - h] == w[18 - (h + 1)]);
                assert(!is_pal(w, 18, h as int + 1)) by {
                    assert(w[18 - (h + 1)] != w[18 + (h + 1)]);
                }
                assert(best_half(w, 18, h as int + 1) == -1);
            }
            break;
        }
        proof {
            assert(is_pal(w, 18, h as int + 1)) by {
                assert(w[18 - (h + 1)] == w[18 + (h + 1)]);
                assert forall|k: int| 1 <= k <= h + 1 implies w[18 - k] == #[trigger] w[18
                    + k] by {
                    if k <= h {
                        assert(is_pal(w, 18, h as int));
                    }
                }
            }
        }
        h = h + 1;
    }
    result
}

} // verus!
