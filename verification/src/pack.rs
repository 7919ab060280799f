use vstd::prelude::*;

use crate::arith::{lemma_pow16_pos, pow16};
use crate::digits::digit_seq_ok;
use crate::pal::is_pal;

verus! {

/// The value of a digit queue packed one digit per 4-bit nibble, oldest
/// digit in the lowest nibble.
pub open spec fn pack(s: Seq<u64>) -> int
    decreases s.len(),
{
    if s.len() == 0 {
        0
    } else {
        s[0] + 16 * pack(s.drop_first())
    }
}

/// The half-window left of center `c`, inner digit in the highest nibble.
pub open spec fn left_seq(w: Seq<u64>, c: int, h: int) -> Seq<u64> {
    w.subrange(c - h, c)
}

/// The half-window right of center `c`, read outward-to-inward so that the
/// outermost digit sits in the lowest nibble.
pub open spec fn right_seq(w: Seq<u64>, c: int, h: int) -> Seq<u64> {
    w.subrange(c + 1, c + h + 1).reverse()
}

pub proof fn lemma_pack_bound(s: Seq<u64>)
    requires
        forall|j: int| 0 <= j < s.len() ==> s[j] < 16,
    ensures
        0 <= pack(s) < pow16(s.len()),
    decreases s.len(),
{
    if s.len() > 0 {
        lemma_pack_bound(s.drop_first());
    }
}

pub proof fn lemma_pack_snoc(s: Seq<u64>)
    requires
        s.len() > 0,
    ensures
        pack(s) == pack(s.drop_last()) + s.last() * pow16((s.len() - 1) as nat),
    decreases s.len(),
{
    if s.len() == 1 {
        assert(s.drop_last() =~= Seq::<u64>::empty());
        assert(pack(s) == s[0] + 16 * pack(s.drop_first()));
        assert(s.drop_first() =~= Seq::<u64>::empty());
        assert(pack(Seq::<u64>::empty()) == 0);
        assert(pow16(0) == 1);
        assert(s.last() == s[0]);
    } else {
        let df = s.drop_first();
        lemma_pack_snoc(df);
        assert(df.drop_last() =~= s.drop_last().drop_first());
        assert(df.last() == s.last());
        assert(pack(s) == s[0] + 16 * pack(df));
        assert(pack(df) == pack(s.drop_last().drop_first()) + s.last() * pow16(
            (s.len() - 2) as nat,
        ));
        assert(pack(s.drop_last()) == s[0] + 16 * pack(s.drop_last().drop_first()));
        assert(16 * (pack(s.drop_last().drop_first()) + s.last() * pow16((s.len() - 2) as nat))
            == 16 * pack(s.drop_last().drop_first()) + s.last() * (16 * pow16(
            (s.len() - 2) as nat,
        ))) by (nonlinear_arith);
        assert(pow16((s.len() - 1) as nat) == 16 * pow16((s.len() - 2) as nat));
        assert(16 * pack(df) == 16 * pack(s.drop_last().drop_first()) + s.last() * (16 * pow16(
            (s.len() - 2) as nat,
        )));
        assert(pack(s) == pack(s.drop_last()) + s.last() * (16 * pow16((s.len() - 2) as nat)));
    }
}

pub proof fn lemma_pack_injective(s: Seq<u64>, t: Seq<u64>)
    requires
        s.len() == t.len(),
        forall|j: int| 0 <= j < s.len() ==> s[j] < 16,
        forall|j: int| 0 <= j < t.len() ==> t[j] < 16,
        pack(s) == pack(t),
    ensures
        s == t,
    decreases s.len(),
{
    if s.len() == 0 {
        assert(s =~= t);
    } else {
        lemma_pack_bound(s.drop_first());
        lemma_pack_bound(t.drop_first());
        assert(s[0] == pack(s) - 16 * pack(s.drop_first()));
        assert(s[0] % 16 == s[0] && t[0] % 16 == t[0]);
        assert(s[0] == t[0] && pack(s.drop_first()) == pack(t.drop_first())) by (
        nonlinear_arith)
            requires
                pack(s) == pack(t),
                pack(s) == s[0] + 16 * pack(s.drop_first()),
                pack(t) == t[0] + 16 * pack(t.drop_first()),
                0 <= s[0] < 16,
                0 <= t[0] < 16,
                pack(s.drop_first()) >= 0,
                pack(t.drop_first()) >= 0,
        ;
        lemma_pack_injective(s.drop_first(), t.drop_first());
        assert forall|j: int| 0 <= j < s.len() implies s[j] == t[j] by {
            if j > 0 {
                assert(s.drop_first()[j - 1] == t.drop_first()[j - 1]);
            }
        }
        assert(s =~= t);
    }
}

/// The two packed half-windows agree exactly when the run of half-width
/// `h` centered at `c` is symmetric.
pub proof fn lemma_pack_eq_iff_pal(w: Seq<u64>, c: int, h: int)
    requires
        1 <= h,
        h <= c,
        c + h < w.len(),
        digit_seq_ok(w),
    ensures
        pack(left_seq(w, c, h)) == pack(right_seq(w, c, h)) <==> is_pal(w, c, h),
{
    let ls = left_seq(w, c, h);
    let rs = right_seq(w, c, h);
    assert(ls.len() == h && rs.len() == h);
    assert forall|j: int| 0 <= j < h implies ls[j] < 16 && rs[j] < 16 by {
        assert(w[c - h + j] < 10);
        assert(rs[j] == w[c + h - j]);
        assert(w[c + h - j] < 10);
    }
    if pack(ls) == pack(rs) {
        lemma_pack_injective(ls, rs);
        assert forall|k: int| 1 <= k <= h implies w[c - k] == #[trigger] w[c + k] by {
            assert(ls[h - k] == rs[h - k]);
            assert(rs[h - k] == w[c + k]);
        }
    }
    if is_pal(w, c, h) {
        assert(ls =~= rs) by {
            assert forall|j: int| 0 <= j < h implies ls[j] == rs[j] by {
                assert(rs[j] == w[c + h - j]);
                let k = h - j;
                assert(w[c - k] == w[c + k]);
            }
        }
    }
}

/// Rolling the left accumulator one center to the right: drop the lowest
/// nibble, add the new inner digit in the highest one.
pub proof fn lemma_left_roll(w: Seq<u64>, c: int, h: int)
    requires
        1 <= h,
        h <= c,
        c < w.len(),
        digit_seq_ok(w),
    ensures
        pack(left_seq(w, c + 1, h)) == pack(left_seq(w, c, h)) / 16 + w[c] * pow16(
            (h - 1) as nat,
        ),
{
    let ls = left_seq(w, c, h);
    let ns = left_seq(w, c + 1, h);
    assert(ns.drop_last() =~= ls.drop_first());
    assert(ns.last() == w[c]);
    lemma_pack_snoc(ns);
    assert(pack(ls) == ls[0] + 16 * pack(ls.drop_first()));
    assert(0 <= ls[0] < 16) by {
        assert(w[c - h] < 10);
    }
    lemma_pack_bound_drop_first(ls);
    assert((ls[0] + 16 * pack(ls.drop_first())) / 16 == pack(ls.drop_first())) by (
    nonlinear_arith)
        requires
            0 <= ls[0] < 16,
            pack(ls.drop_first()) >= 0,
    ;
}

proof fn lemma_pack_bound_drop_first(s: Seq<u64>)
    requires
        s.len() > 0,
        forall|j: int| 0 <= j < s.len() ==> s[j] < 10,
    ensures
        pack(s.drop_first()) >= 0,
{
    assert forall|j: int| 0 <= j < s.drop_first().len() implies s.drop_first()[j] < 16 by {
        assert(s[j + 1] < 10);
    }
    lemma_pack_bound(s.drop_first());
}

/// Rolling the right accumulator one center to the right: mask off the
/// innermost digit, shift up, add the new outermost digit in the lowest
/// nibble.
pub proof fn lemma_right_roll(w: Seq<u64>, c: int, h: int)
    requires
        1 <= h,
        0 <= c,
        c + h + 1 < w.len(),
        digit_seq_ok(w),
    ensures
        pack(right_seq(w, c + 1, h)) == (pack(right_seq(w, c, h)) % pow16((h - 1) as nat)) * 16
            + w[c + h + 1],
{
    let rs = right_seq(w, c, h);
    let ns = right_seq(w, c + 1, h);
    assert(ns[0] == w[c + h + 1]);
    assert(ns.drop_first() =~= rs.drop_last()) by {
        assert forall|j: int| 0 <= j < h - 1 implies ns.drop_first()[j] == rs.drop_last()[j] by {
            assert(ns[j + 1] == w[c + 1 + h - (j + 1)]);
            assert(rs[j] == w[c + h - j]);
        }
    }
    assert(pack(ns) == ns[0] + 16 * pack(ns.drop_first()));
    lemma_pack_snoc(rs);
    assert forall|j: int| 0 <= j < rs.drop_last().len() implies rs.drop_last()[j] < 16 by {
        assert(rs[j] == w[c + h - j]);
        assert(w[c + h - j] < 10);
    }
    lemma_pack_bound(rs.drop_last());
    let p = pow16((h - 1) as nat);
    lemma_pow16_pos((h - 1) as nat);
    assert(0 <= rs.last() < 16) by {
        assert(rs.last() == w[c + 1]);
    }
    assert(pack(rs) % p == pack(rs.drop_last())) by (nonlinear_arith)
        requires
            pack(rs) == pack(rs.drop_last()) + rs.last() * p,
            0 <= pack(rs.drop_last()) < p,
            0 <= rs.last(),
            p >= 1,
    ;
}

} // verus!
