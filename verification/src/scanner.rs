use vstd::prelude::*;

use crate::arith::{lemma_pow16_18_fits_u128, lemma_pow16_le, lemma_pow16_pos, pow16};
use crate::digits::{carry_digits, decode_block, digit_seq_ok, u64_to_digits};
use crate::expand::{find_prime_palindrome, Palindrome};
use crate::pack::{
    lemma_left_roll, lemma_pack_bound, lemma_pack_eq_iff_pal, lemma_right_roll, left_seq, pack,
    right_seq,
};
use crate::pal::{
    best_half, is_pal, lemma_best_half_congruent, lemma_best_half_min, lemma_scan_congruent,
    lemma_scan_floor_monotone, lemma_scan_inert, lemma_scan_prefix_stable, lemma_scan_split, scan,
    SpecHit,
};

verus! {

/// The first center index of a window (or of the whole stream) that no
/// scan so far has covered: every center needs 18 digits on each side.
pub open spec fn scanned_hi(w: Seq<u64>) -> int {
    if w.len() <= 36 {
        18
    } else {
        w.len() - 18
    }
}

/// An emitted record matches a hit of the scan: same value, the digit
/// length of the full run, and the absolute 1-based position of the run's
/// first digit, where `base` is the position of index 0.
pub open spec fn hit_matches(ht: SpecHit, p: Palindrome, base: int) -> bool {
    &&& p.number as int == ht.value
    &&& p.n_digits == 2 * ht.half + 1
    &&& p.position == base + ht.center - ht.half
}

/// All emitted records match the scan's hits, in order.
pub open spec fn hits_match(hits: Seq<SpecHit>, out: Seq<Palindrome>, base: int) -> bool {
    &&& out.len() == hits.len()
    &&& forall|i: int| 0 <= i < hits.len() ==> hit_matches(hits[i], #[trigger] out[i], base)
}

fn pow16_exec(e: usize) -> (r: u128)
    requires
        e <= 18,
    ensures
        r as int == pow16(e as nat),
{
    proof {
        lemma_pow16_18_fits_u128();
    }
    let mut r: u128 = 1;
    for j in 0..e
        invariant
            e <= 18,
            r as int == pow16(j as nat),
            pow16(18) <= u128::MAX,
    {
        proof {
            lemma_pow16_le((j + 1) as nat, 18);
        }
        r = r * 16;
    }
    r
}

/// Packs the two half-windows around center `c` from scratch.
fn build_accs(window: &Vec<u64>, c: usize, h: usize) -> (lr: (u128, u128))
    requires
        1 <= h <= 18,
        h <= c,
        c + h < window@.len(),
        window@.len() <= usize::MAX,
        digit_seq_ok(window@),
    ensures
        lr.0 as int == pack(left_seq(window@, c as int, h as int)),
        lr.1 as int == pack(right_seq(window@, c as int, h as int)),
{
    let ghost w = window@;
    let ghost ls = left_seq(w, c as int, h as int);
    let ghost rs = right_seq(w, c as int, h as int);
    proof {
        lemma_pow16_18_fits_u128();
        assert forall|j: int| 0 <= j < h implies ls[j] < 16 && rs[j] < 16 by {
            assert(w[c - h + j] < 10);
            assert(rs[j] == w[c + h - j]);
            assert(w[c + h - j] < 10);
        }
    }
    let mut left: u128 = 0;
    let mut right: u128 = 0;
    let mut pw: u128 = 1;
    for j in 0..h
        invariant
            1 <= h <= 18,
            h <= c,
            c + h < window@.len(),
            window@.len() <= usize::MAX,
            digit_seq_ok(window@),
            window@ == w,
            ls == left_seq(w, c as int, h as int),
            rs == right_seq(w, c as int, h as int),
            forall|t: int| 0 <= t < h ==> ls[t] < 16 && rs[t] < 16,
            pw as int == pow16(j as nat),
            left as int == pack(ls.take(j as int)),
            right as int == pack(rs.take(j as int)),
            pow16(18) <= u128::MAX,
    {
        proof {
            lemma_pow16_le(j as nat, 17);
            lemma_pow16_le((j + 1) as nat, 18);
            assert forall|t: int| 0 <= t < j implies ls.take(j as int)[t] < 16 by {}
            lemma_pack_bound(ls.take(j as int));
            lemma_pack_bound(rs.take(j as int));
            assert(ls.take(j + 1).drop_last() =~= ls.take(j as int));
            assert(rs.take(j + 1).drop_last() =~= rs.take(j as int));
            crate::pack::lemma_pack_snoc(ls.take(j + 1));
            crate::pack::lemma_pack_snoc(rs.take(j + 1));
            assert(ls.take(j + 1).last() == ls[j as int]);
            assert(rs.take(j + 1).last() == rs[j as int]);
            assert(ls[j as int] * pow16(j as nat) <= 15 * pow16(j as nat) && rs[j as int]
                * pow16(j as nat) <= 15 * pow16(j as nat) && 0 <= ls[j as int] * pow16(j as nat)
                && 0 <= rs[j as int] * pow16(j as nat)) by (nonlinear_arith)
                requires
                    0 <= ls[j as int] < 16,
                    0 <= rs[j as int] < 16,
                    pow16(j as nat) >= 1,
            ;
            assert(16 * pow16(j as nat) == pow16((j + 1) as nat));
        }
        let dl = window[c - h + j];
        let dr = window[c + h - j];
        proof {
            assert(ls[j as int] == dl);
            assert(rs[j as int] == w[c + h - j]);
        }
        left = left + (dl as u128) * pw;
        right = right + (dr as u128) * pw;
        pw = pw * 16;
    }
    proof {
        assert(ls.take(h as int) =~= ls);
        assert(rs.take(h as int) =~= rs);
    }
    (left, right)
}

/// Scans every center of one decoded window against the current minimum
/// width, using the two rolling nibble accumulators; hits are expanded,
/// checked for primality and reported, and each report raises the floor.
fn scan_window(window: &Vec<u64>, min_width: usize, base_pos: u64) -> (r: (Vec<Palindrome>, usize))
    requires
        digit_seq_ok(window@),
        min_width % 2 == 1,
        3 <= min_width <= 39,
        base_pos + window@.len() <= u64::MAX,
    ensures
        ({
            let st = scan(window@, min_width as int / 2, 18, scanned_hi(window@));
            r.1 as int == 2 * st.floor + 1 && 3 <= r.1 <= 39 && r.1 % 2 == 1 && hits_match(
                st.hits,
                r.0@,
                base_pos as int,
            )
        }),
{
    let ghost w = window@;
    let ghost m_in = min_width as int / 2;
    let mut results: Vec<Palindrome> = Vec::new();
    let mut mw = min_width;
    let len = window.len();
    if len < 37 {
        return (results, mw);
    }
    let hi = len - 18;
    if mw > 37 {
        proof {
            lemma_scan_inert(w, m_in, 18, scanned_hi(w));
        }
        return (results, mw);
    }
    let mut c: usize = 18;
    let mut h: usize = mw / 2;
    let mut ph: u128 = pow16_exec(h - 1);
    let mut left: u128 = 0;
    let mut right: u128 = 0;
    let mut rebuild = true;
    while c < hi
        invariant
            window@ == w,
            digit_seq_ok(w),
            37 <= w.len() <= usize::MAX,
            hi == w.len() - 18,
            18 <= c <= hi,
            base_pos + w.len() <= u64::MAX,
            1 <= m_in,
            3 <= mw <= 39,
            mw % 2 == 1,
            mw <= 37 ==> (h == mw / 2 && 1 <= h <= 18 && ph as int == pow16((h - 1) as nat)),
            mw > 37 ==> c == hi,
            (mw <= 37 && !rebuild && c < hi) ==> (left as int == pack(
                left_seq(w, c as int, h as int),
            ) && right as int == pack(right_seq(w, c as int, h as int))),
            2 * scan(w, m_in, 18, c as int).floor + 1 == mw,
            hits_match(scan(w, m_in, 18, c as int).hits, results@, base_pos as int),
        decreases hi - c,
    {
        if rebuild {
            let lr = build_accs(window, c, h);
            left = lr.0;
            right = lr.1;
            rebuild = false;
        }
        let ghost st = scan(w, m_in, 18, c as int);
        proof {
            assert(st.floor == h as int);
        }
        let mut advanced = false;
        if left == right {
            proof {
                lemma_pack_eq_iff_pal(w, c as int, h as int);
            }
            let run = vstd::slice::slice_subrange(window.as_slice(), c - 18, c + 19);
            proof {
                assert(run@ =~= w.subrange(c - 18, c + 19));
                assert forall|k: int| -18 <= k <= 18 implies run@[18 + k] == #[trigger] w[c + k]
                    by {}
                assert(digit_seq_ok(run@.take(37))) by {
                    assert forall|j: int| 0 <= j < 37 implies #[trigger] run@.take(37)[j]
                        < 10 by {
                        assert(w[c - 18 + j] < 10);
                    }
                }
                assert(is_pal(run@, 18, mw as int / 2)) by {
                    assert forall|k: int| 1 <= k <= h implies run@[18 - k] == #[trigger] run@[18
                        + k] by {
                        assert(w[c as int - k] == w[c as int + k]);
                    }
                }
            }
            let found = find_prime_palindrome(run, mw, base_pos + (c as u64) - 18);
            proof {
                assert forall|k: int| -18 <= k <= 18 implies run@[18 + k] == #[trigger] w[(
                c as int) + k] by {}
                lemma_best_half_congruent(run@, 18, w, c as int, h as int);
                lemma_best_half_min(w, c as int, h as int);
            }
            let ghost best = best_half(w, c as int, h as int);
            match found {
                Some(p) => {
                    proof {
                        assert(best >= 0);
                        let hit = crate::pal::step_hit(w, h as int, c as int).unwrap();
                        assert(hit.half == best && hit.center == c as int && hit.value
                            == crate::pal::pal_value(w, c as int, best));
                        assert(scan(w, m_in, 18, c as int + 1).hits == st.hits.push(hit));
                        assert(scan(w, m_in, 18, c as int + 1).floor == best + 1);
                        assert(hit_matches(hit, p, base_pos as int));
                    }
                    let nd = p.n_digits;
                    results.push(p);
                    proof {
                        assert(hits_match(
                            scan(w, m_in, 18, c as int + 1).hits,
                            results@,
                            base_pos as int,
                        ));
                    }
                    mw = nd + 2;
                    if mw > 37 {
                        proof {
                            lemma_scan_split(w, m_in, 18, c as int + 1, hi as int);
                            lemma_scan_inert(w, best + 1, c as int + 1, hi as int);
                            assert(scan(w, m_in, 18, hi as int).hits =~= scan(
                                w,
                                m_in,
                                18,
                                c as int + 1,
                            ).hits);
                        }
                        c = hi;
                    } else {
                        h = mw / 2;
                        ph = pow16_exec(h - 1);
                        rebuild = true;
                        c = c + 1;
                    }
                    advanced = true;
                },
                None => {
                    proof {
                        assert(best == -1);
                        assert(scan(w, m_in, 18, c as int + 1) == st);
                    }
                },
            }
        } else {
            proof {
                lemma_pack_eq_iff_pal(w, c as int, h as int);
                assert(best_half(w, c as int, h as int) == -1);
                assert(scan(w, m_in, 18, c as int + 1) == st);
            }
        }
        if !advanced {
            c = c + 1;
            if c < hi {
                proof {
                    lemma_pow16_le((h - 1) as nat, 17);
                    lemma_pow16_pos((h - 1) as nat);
                    lemma_pow16_18_fits_u128();
                    lemma_left_roll(w, c as int - 1, h as int);
                    lemma_right_roll(w, c as int - 1, h as int);
                    assert forall|t: int| 0 <= t < h implies #[trigger] left_seq(
                        w,
                        c as int - 1,
                        h as int,
                    )[t] < 16 by {
                        assert(w[c - 1 - h + t] < 10);
                    }
                    lemma_pack_bound(left_seq(w, c as int - 1, h as int));
                    assert(16 * pow16((h - 1) as nat) == pow16(h as nat));
                    lemma_pow16_le(h as nat, 18);
                    assert(left as int / 16 < pow16((h - 1) as nat)) by (nonlinear_arith)
                        requires
                            0 <= (left as int) && (left as int) < pow16(h as nat),
                            pow16(h as nat) == 16 * pow16((h - 1) as nat),
                            pow16((h - 1) as nat) >= 1,
                    ;
                    assert((w[c as int - 1] as int) * pow16((h - 1) as nat) <= 15 * pow16(
                        (h - 1) as nat,
                    )) by (nonlinear_arith)
                        requires
                            0 <= w[c as int - 1] < 16,
                            pow16((h - 1) as nat) >= 1,
                    ;
                }
                let dl = window[c - 1];
                left = left / 16 + (dl as u128) * ph;
                let dr = window[c + h];
                right = (right % ph) * 16 + (dr as u128);
            }
        }
    }
    proof {
        assert(scanned_hi(w) == hi as int);
    }
    (results, mw)
}

/// The stream driver's cross-block state: the digit window with its carry,
/// the current minimum width, and the absolute position bookkeeping.
pub struct Scanner {
    window: Vec<u64>,
    min_width: usize,
    consumed: u64,
    start_pos: u64,
    all: Ghost<Seq<u64>>,
    m0: Ghost<int>,
    emitted: Ghost<Seq<SpecHit>>,
}

impl Scanner {
    /// Every digit fed so far, across all blocks.
    pub closed spec fn digits_fed(&self) -> Seq<u64> {
        self.all@
    }

    /// The half-width floor the scanner started with.
    pub closed spec fn initial_floor(&self) -> int {
        self.m0@
    }

    /// Every hit reported so far, across all blocks.
    pub closed spec fn results(&self) -> Seq<SpecHit> {
        self.emitted@
    }

    /// The absolute 1-based position of the first digit fed.
    pub closed spec fn start(&self) -> u64 {
        self.start_pos
    }

    pub closed spec fn wf(&self) -> bool {
        let all = self.all@;
        let w = self.window@;
        let st = scan(all, self.m0@, 18, scanned_hi(all));
        &&& digit_seq_ok(all)
        &&& w.len() <= all.len()
        &&& w == all.subrange(all.len() - w.len(), all.len() as int)
        &&& (w.len() == all.len() || w.len() >= 36)
        &&& self.consumed as int == all.len()
        &&& 1 <= self.m0@ <= 19
        &&& self.min_width as int == 2 * st.floor + 1
        &&& 3 <= self.min_width <= 39
        &&& self.min_width % 2 == 1
        &&& self.emitted@ == st.hits
    }

    /// A fresh scanner: `start_pos` is the absolute 1-based position of
    /// the first digit that will be fed, `min_width` the initial minimum
    /// palindrome width (odd).
    pub fn new(start_pos: u64, min_width: usize) -> (s: Scanner)
        requires
            3 <= min_width <= 39,
            min_width % 2 == 1,
        ensures
            s.wf(),
            s.digits_fed() == Seq::<u64>::empty(),
            s.initial_floor() == min_width as int / 2,
            s.results() == Seq::<SpecHit>::empty(),
            s.start() == start_pos,
    {
        let s = Scanner {
            window: Vec::new(),
            min_width,
            consumed: 0,
            start_pos,
            all: Ghost(Seq::empty()),
            m0: Ghost(min_width as int / 2),
            emitted: Ghost(Seq::empty()),
        };
        proof {
            assert(s.window@ =~= s.all@.subrange(0, 0));
            assert(scan(s.all@, s.m0@, 18, scanned_hi(s.all@)).floor == s.m0@);
        }
        s
    }

    /// The current minimum palindrome width: the floor the scan has
    /// reached so far, as a digit count.
    pub fn min_width(&self) -> (r: usize)
        requires
            self.wf(),
        ensures
            r as int == 2 * scan(
                self.digits_fed(),
                self.initial_floor(),
                18,
                scanned_hi(self.digits_fed()),
            ).floor + 1,
    {
        self.min_width
    }

    /// The laws every reported result obeys, stated over the digits fed
    /// so far.  Each result is a symmetric run of 3 to 37 digits whose
    /// digit slice reads the same forwards and backwards, its value is
    /// the value of exactly those digits and was accepted by the
    /// primality oracle, no wider symmetric run around the same center
    /// (within 37 digits) has an accepted value, and each result is
    /// strictly wider than the one before it by at least one digit pair.
    pub proof fn lemma_results_laws(&self)
        requires
            self.wf(),
        ensures
            forall|i: int|
                0 <= i < self.results().len() ==> {
                    let ht = #[trigger] self.results()[i];
                    let w = self.digits_fed();
                    &&& 18 <= ht.center < w.len() - 18
                    &&& 1 <= ht.half <= 18
                    &&& is_pal(w, ht.center, ht.half)
                    &&& ht.value == crate::pal::pal_value(w, ht.center, ht.half)
                    &&& crate::primes::oracle_accepts(ht.value)
                    &&& (forall|k: int|
                        ht.half < k <= 18 && is_pal(w, ht.center, k)
                            ==> !crate::primes::oracle_accepts(
                            crate::pal::pal_value(w, ht.center, k),
                        ))
                    &&& w.subrange(ht.center - ht.half, ht.center + ht.half + 1)
                        == w.subrange(
                        ht.center - ht.half,
                        ht.center + ht.half + 1,
                    ).reverse()
                },
            forall|i: int, j: int|
                0 <= i < j < self.results().len() ==> #[trigger] self.results()[i].half + 1
                    <= #[trigger] self.results()[j].half,
    {
        let all = self.all@;
        let hi = scanned_hi(all);
        crate::pal::lemma_scan_hits_sound(all, self.m0@, 18, hi);
        crate::pal::lemma_scan_hits_monotone(all, self.m0@, 18, hi);
        if all.len() > 36 {
            crate::pal::lemma_scan_hits_palindromic(all, self.m0@, 18, hi);
        } else {
            assert(self.results().len() == 0);
        }
        assert forall|i: int| 0 <= i < self.results().len() implies #[trigger] self.results()[i].center
            < all.len() - 18 by {
            assert(self.results()[i].center < hi);
        }
    }

    /// Decodes one raw block into the window behind the carried digits,
    /// scans every newly covered center, and reports each prime palindrome
    /// found, in position order.  The records returned are exactly the
    /// hits that a single scan over all digits fed so far adds beyond
    /// those already reported: block boundaries leave no trace.
    pub fn feed_block(&mut self, raw: &[u8]) -> (out: Vec<Palindrome>)
        requires
            old(self).wf(),
            raw@.len() % 8 == 0,
            raw@.len() / 8 * 19 + 36 <= usize::MAX,
            old(self).start() + old(self).digits_fed().len() + raw@.len() / 8 * 19
                <= u64::MAX,
        ensures
            final(self).wf(),
            final(self).digits_fed() == old(self).digits_fed() + decode_block(raw@),
            final(self).initial_floor() == old(self).initial_floor(),
            final(self).start() == old(self).start(),
            final(self).results() == scan(
                final(self).digits_fed(),
                final(self).initial_floor(),
                18,
                scanned_hi(final(self).digits_fed()),
            ).hits,
            old(self).results() == final(self).results().take(
                old(self).results().len() as int,
            ),
            out@.len() == final(self).results().len() - old(self).results().len(),
            forall|i: int|
                0 <= i < out@.len() ==> hit_matches(
                    final(self).results()[old(self).results().len() + i],
                    #[trigger] out@[i],
                    final(self).start() as int,
                ),
    {
        let ghost all_o = self.all@;
        let ghost w_o = self.window@;
        let ghost m0 = self.m0@;
        let ghost dec = decode_block(raw@);
        let ghost hi_o = scanned_hi(all_o);
        let ghost floor_o = scan(all_o, m0, 18, hi_o).floor;

        u64_to_digits(raw, &mut self.window);
        let nd = raw.len() / 8 * 19;
        self.consumed = self.consumed + nd as u64;
        self.all = Ghost(all_o + dec);

        let ghost all_n = all_o + dec;
        let ghost w_n = self.window@;
        let ghost base_n = all_n.len() - w_n.len();
        let ghost hi_n = scanned_hi(all_n);
        let ghost carry = carry_digits(w_o);

        proof {
            assert forall|k: int| 0 <= k < dec.len() implies dec[k] < 10 by {
                let v = crate::digits::le_group_val(raw@, 8 * (k / 19)) as u64;
                assert(dec[k] == crate::digits::u64_digit(v, k % 19));
            }
            assert(digit_seq_ok(all_n)) by {
                assert forall|j: int| 0 <= j < all_n.len() implies all_n[j] < 10 by {
                    if j >= all_o.len() {
                        assert(dec[j - all_o.len()] < 10);
                    }
                }
            }
            assert(w_n == carry + dec);
            assert(carry.len() == if w_o.len() <= 36 {
                w_o.len() as int
            } else {
                36
            });
            assert(base_n == all_o.len() - carry.len());
            // the new window is a suffix of all digits fed
            assert forall|t: int| 0 <= t < w_n.len() implies w_n[t] == all_n[base_n + t] by {
                if t < carry.len() {
                    assert(carry[t] == w_o[w_o.len() - carry.len() + t]);
                    assert(w_o[w_o.len() - carry.len() + t] == all_o.subrange(
                        all_o.len() - w_o.len(),
                        all_o.len() as int,
                    )[w_o.len() - carry.len() + t]);
                    assert(w_n[t] == all_o[all_o.len() - carry.len() + t]);
                } else {
                    assert(w_n[t] == dec[t - carry.len()]);
                }
            }
            assert(w_n =~= all_n.subrange(base_n, all_n.len() as int));
            // the old and new frontier of scanned centers
            assert(base_n + 18 == hi_o) by {
                if all_o.len() <= 36 {
                    assert(w_o.len() == all_o.len());
                    assert(base_n == 0);
                } else {
                    assert(w_o.len() >= 36);
                    assert(carry.len() == 36);
                }
            }
            assert(w_n.len() == all_n.len() || w_n.len() >= 36);
            assert(hi_n == base_n + scanned_hi(w_n)) by {
                if w_n.len() <= 36 {
                    if base_n == 0 {
                        assert(all_n.len() <= 36);
                    } else {
                        assert(carry.len() == 36);
                        assert(w_n.len() == 36 && dec.len() == 0);
                        assert(all_n.len() == all_o.len());
                    }
                } else {
                    assert(all_n.len() > 36);
                }
            }
            assert(hi_o <= hi_n);
            // the frontier centers already scanned are untouched by the new digits
            assert(scan(all_n, m0, 18, hi_o) == scan(all_o, m0, 18, hi_o)) by {
                if hi_o > 18 {
                    assert(hi_o + 18 == all_o.len());
                    lemma_scan_prefix_stable(all_o, dec, m0, 18, hi_o);
                }
            }
            lemma_scan_split(all_n, m0, 18, hi_o, hi_n);
            lemma_scan_floor_monotone(all_o, m0, 18, hi_o);
        }

        let base_pos: u64 = self.start_pos + (self.consumed - self.window.len() as u64);
        proof {
            assert(base_pos as int == self.start_pos + base_n);
        }
        let r = scan_window(&self.window, self.min_width, base_pos);
        self.min_width = r.1;
        self.emitted = Ghost(scan(all_n, m0, 18, hi_n).hits);

        proof {
            let st_l = scan(w_n, floor_o, 18, scanned_hi(w_n));
            assert((old(self).min_width as int) / 2 == floor_o);
            let st_g = scan(all_n, floor_o, hi_o, hi_n);
            if scanned_hi(w_n) == 18 {
                assert(hi_n == hi_o);
                assert(st_l.hits =~= Seq::<SpecHit>::empty() && st_l.floor == floor_o);
                assert(st_g.hits =~= Seq::<SpecHit>::empty() && st_g.floor == floor_o);
            } else {
                assert(w_n.len() >= 37);
                assert forall|t: int| 0 <= t < w_n.len() implies w_n[t] == #[trigger] all_n[t
                    + base_n] by {
                    assert(w_n[t] == all_n[base_n + t]);
                }
                lemma_scan_congruent(w_n, all_n, base_n, floor_o, 18, scanned_hi(w_n));
            }
            assert(st_g.floor == st_l.floor);
            assert(st_g.hits.len() == st_l.hits.len());
            let hits_n = scan(all_n, m0, 18, hi_n).hits;
            let old_hits = scan(all_o, m0, 18, hi_o).hits;
            assert(hits_n =~= old_hits + st_g.hits);
            assert(old(self).results() == old_hits);
            assert(self.emitted@.take(old_hits.len() as int) =~= old_hits);
            assert(hits_match(st_l.hits, r.0@, base_pos as int));
            assert forall|i: int| 0 <= i < r.0@.len() implies hit_matches(
                self.emitted@[old_hits.len() + i],
                #[trigger] r.0@[i],
                self.start_pos as int,
            ) by {
                let lh = st_l.hits[i];
                let gh = st_g.hits[i];
                assert(hits_n[old_hits.len() + i] == gh);
                assert(gh.value == lh.value && gh.half == lh.half && gh.center == lh.center
                    + base_n);
                assert(hit_matches(lh, r.0@[i], base_pos as int));
            }
            assert(scan(all_n, m0, 18, hi_n).floor == st_l.floor);
            assert(self.min_width as int == 2 * scan(all_n, m0, 18, hi_n).floor + 1);
            assert(self.wf());
        }
        r.0
    }
}

} // verus!
