use vstd::prelude::*;

use crate::arith::{lemma_pow10_37_fits_u128, lemma_pow10_le, lemma_pow10_pos, pow10};

verus! {

/// Every entry of the window is a decimal digit.
pub open spec fn digit_seq_ok(s: Seq<u64>) -> bool {
    forall|j: int| 0 <= j < s.len() ==> s[j] < 10
}

/// The integer denoted by a digit sequence, most significant digit first.
pub open spec fn digits_to_int(s: Seq<u64>) -> int
    decreases s.len(),
{
    if s.len() == 0 {
        0
    } else {
        10 * digits_to_int(s.drop_last()) + s.last()
    }
}

pub proof fn lemma_digits_to_int_bounds(s: Seq<u64>)
    requires
        digit_seq_ok(s),
    ensures
        0 <= digits_to_int(s) < pow10(s.len()),
    decreases s.len(),
{
    if s.len() == 0 {
    } else {
        assert(digit_seq_ok(s.drop_last()));
        lemma_digits_to_int_bounds(s.drop_last());
        lemma_pow10_pos((s.len() - 1) as nat);
    }
}

/// Folds the first `n_digits` digits of a slice into an unsigned integer
/// via `value = value * 10 + digit`.
pub fn digits_to_number(digits: &[u64], n_digits: usize) -> (result: u128)
    requires
        n_digits <= digits@.len(),
        n_digits <= 37,
        digit_seq_ok(digits@.take(n_digits as int)),
    ensures
        result as int == digits_to_int(digits@.take(n_digits as int)),
{
    proof {
        lemma_pow10_37_fits_u128();
    }
    let mut result: u128 = 0;
    for i in 0..n_digits
        invariant
            n_digits <= digits@.len(),
            n_digits <= 37,
            digit_seq_ok(digits@.take(n_digits as int)),
            result as int == digits_to_int(digits@.take(i as int)),
            result < pow10(i as nat),
            pow10(37) <= u128::MAX,
    {
        proof {
            lemma_pow10_le((i + 1) as nat, 37);
            assert(digits@.take(i + 1).drop_last() =~= digits@.take(i as int));
            assert(digits@.take(n_digits as int)[i as int] == digits@[i as int]);
        }
        result = result * 10;
        result = result + digits[i] as u128;
    }
    proof {
        assert(digits@.take(n_digits as int) =~= digits@.take(n_digits as int));
    }
    result
}

/// Digit `i` (most significant first) of the 19-digit decimal expansion of `v`.
pub open spec fn u64_digit(v: u64, i: int) -> u64 {
    (((v as int) / pow10((18 - i) as nat)) % 10) as u64
}

/// The unsigned integer denoted by the 8 little-endian bytes of `s` at `off`.
pub open spec fn le_group_val(s: Seq<u8>, off: int) -> int {
    s[off] + 0x100 * s[off + 1] + 0x1_0000 * s[off + 2] + 0x100_0000 * s[off + 3] + 0x1_0000_0000
        * s[off + 4] + 0x100_0000_0000 * s[off + 5] + 0x1_0000_0000_0000 * s[off + 6]
        + 0x100_0000_0000_0000 * s[off + 7]
}

/// The digits decoded from a raw block: each 8-byte little-endian group
/// expands to 19 decimal digits, most significant digit first.
pub open spec fn decode_block(raw: Seq<u8>) -> Seq<u64> {
    Seq::new((raw.len() / 8 * 19) as nat, |k: int| u64_digit(le_group_val(raw, 8 * (k / 19)) as u64, k % 19))
}

/// The digits a window hands on to its successor: its last 36 entries,
/// or all of them if it is shorter than that.
pub open spec fn carry_digits(w: Seq<u64>) -> Seq<u64> {
    if w.len() <= 36 {
        w
    } else {
        w.skip(w.len() - 36)
    }
}

/// Reads one 8-byte little-endian group as an unsigned 64-bit integer.
fn le_bytes_to_u64(raw: &[u8], off: usize) -> (v: u64)
    requires
        off + 8 <= raw@.len(),
        raw@.len() <= usize::MAX,
    ensures
        v as int == le_group_val(raw@, off as int),
{
    let mut v: u64 = raw[off + 7] as u64;
    v = v * 0x100 + raw[off + 6] as u64;
    v = v * 0x100 + raw[off + 5] as u64;
    v = v * 0x100 + raw[off + 4] as u64;
    v = v * 0x100 + raw[off + 3] as u64;
    v = v * 0x100 + raw[off + 2] as u64;
    v = v * 0x100 + raw[off + 1] as u64;
    v = v * 0x100 + raw[off] as u64;
    v
}

proof fn lemma_div_chain(v: u64, k: nat)
    ensures
        ((v as int) / pow10(k)) / 10 == (v as int) / pow10(k + 1),
{
    lemma_pow10_pos(k);
    vstd::arithmetic::div_mod::lemma_div_denominator(v as int, pow10(k), 10);
    assert(pow10(k) * 10 == pow10(k + 1)) by {
        assert(pow10(k + 1) == 10 * pow10(k));
    }
}

/// Appends the 19-digit big-endian decimal expansion of `v` to `out`.
fn push_group_digits(out: &mut Vec<u64>, v: u64)
    requires
        old(out)@.len() + 19 <= usize::MAX,
    ensures
        final(out)@.len() == old(out)@.len() + 19,
        final(out)@.take(old(out)@.len() as int) == old(out)@,
        forall|i: int| 0 <= i < 19 ==> final(out)@[old(out)@.len() + i] == u64_digit(v, i),
{
    let mut rev: Vec<u64> = Vec::new();
    let mut r0: u64 = v;
    for k in 0..19usize
        invariant
            rev@.len() == k,
            r0 as int == (v as int) / pow10(k as nat),
            forall|j: int| 0 <= j < k ==> rev@[j] == (((v as int) / pow10(j as nat)) % 10) as u64,
    {
        rev.push(r0 % 10);
        proof {
            lemma_div_chain(v, k as nat);
        }
        r0 = r0 / 10;
    }
    let ghost base = out@.len() as int;
    for i in 0..19usize
        invariant
            rev@.len() == 19,
            forall|j: int| 0 <= j < 19 ==> rev@[j] == (((v as int) / pow10(j as nat)) % 10) as u64,
            0 <= base,
            out@.len() == base + i,
            base + 19 <= usize::MAX,
            out@.take(base) == old(out)@,
            forall|j: int| 0 <= j < i ==> out@[base + j] == u64_digit(v, j),
    {
        let d = rev[18 - i];
        let ghost prev = out@;
        out.push(d);
        proof {
            assert(out@ == prev.push(d));
            assert(prev.len() == base + i);
            assert forall|t: int| 0 <= t < base + i implies #[trigger] out@[t] == prev[t] by {
                assert(prev.push(d)[t] == prev[t]);
            }
            assert(out@.take(base) =~= prev.take(base));
            assert(out@[base + i] == d);
            assert(rev@[18 - i] == (((v as int) / pow10((18 - i) as nat)) % 10) as u64);
            assert(d == u64_digit(v, i as int));
        }
    }
}

/// Rebuilds the digit window for a new block: the last 36 digits of the
/// previous window are copied to the front, and each 8-byte group of the
/// block is decoded into 19 decimal digits after them.
///
/// The wire format promises every group value below `10^19`; a larger
/// value is not rejected, it simply contributes the low 19 digits that
/// the stated digit formula gives.
pub fn u64_to_digits(raw: &[u8], digits: &mut Vec<u64>)
    requires
        raw@.len() % 8 == 0,
        raw@.len() / 8 * 19 + 36 <= usize::MAX,
    ensures
        final(digits)@ == carry_digits(old(digits)@) + decode_block(raw@),
{
    let mut out: Vec<u64> = Vec::new();
    let start: usize = if digits.len() <= 36 {
        0
    } else {
        digits.len() - 36
    };
    let ghost carry = carry_digits(digits@);
    for j in start..digits.len()
        invariant
            start <= digits@.len(),
            carry == carry_digits(digits@),
            carry.len() == digits@.len() - start,
            out@.len() == j - start,
            forall|t: int| start <= t < j ==> out@[t - start] == digits@[t],
    {
        out.push(digits[j]);
    }
    proof {
        assert(out@ =~= carry);
    }
    let n_groups: usize = raw.len() / 8;
    let ghost dec = decode_block(raw@);
    for g in 0..n_groups
        invariant
            n_groups == raw@.len() / 8,
            raw@.len() % 8 == 0,
            raw@.len() / 8 * 19 + 36 <= usize::MAX,
            carry.len() <= 36,
            dec == decode_block(raw@),
            out@.len() == carry.len() + g * 19,
            out@.take(carry.len() as int) == carry,
            forall|t: int| 0 <= t < g * 19 ==> out@[carry.len() + t] == dec[t],
    {
        let ghost prev = out@;
        let v = le_bytes_to_u64(raw, g * 8);
        push_group_digits(&mut out, v);
        proof {
            assert(out@.take(carry.len() as int) =~= prev.take(carry.len() as int));
            assert forall|t: int| 0 <= t < (g + 1) * 19 implies out@[carry.len() + t] == dec[t] by {
                if t < g * 19 {
                    assert(out@[carry.len() + t] == prev[carry.len() + t]);
                } else {
                    let i = t - g * 19;
                    assert(out@[prev.len() + i] == u64_digit(v, i));
                    assert(t / 19 == g && t % 19 == i) by {
                        vstd::arithmetic::div_mod::lemma_fundamental_div_mod_converse(
                            t, 19, g as int, i);
                    }
                    assert(dec[t] == u64_digit(le_group_val(raw@, 8 * g) as u64, i));
                    assert(le_group_val(raw@, 8 * g) == v as int);
                }
            }
        }
    }
    proof {
        assert(out@ =~= carry + dec);
    }
    *digits = out;
}

} // verus!
