use vstd::prelude::*;

use crate::digits::digits_to_int;
use crate::primes::oracle_accepts;

verus! {

/// The run of half-width `h` (so `2 * h + 1` digits) centered at `c` is
/// symmetric: each pair of digits at equal distance from the center matches.
pub open spec fn is_pal(w: Seq<u64>, c: int, h: int) -> bool {
    forall|k: int| 1 <= k <= h ==> w[c - k] == #[trigger] w[c + k]
}

/// The integer denoted by the `2 * h + 1` digits centered at `c`.
pub open spec fn pal_value(w: Seq<u64>, c: int, h: int) -> int {
    digits_to_int(w.subrange(c - h, c + h + 1))
}

/// The half-width the expander settles on when it starts from half-width
/// `h` at center `c`: the widest half-width reachable through symmetric
/// runs (never beyond 18, i.e. 37 digits) whose value the primality oracle
/// accepts, or `-1` if the oracle accepts none of them.
pub open spec fn best_half(w: Seq<u64>, c: int, h: int) -> int
    decreases 19 - h,
        when h >= 0
{
    if h > 18 || !is_pal(w, c, h) {
        -1
    } else {
        let rest = best_half(w, c, h + 1);
        if rest >= 0 {
            rest
        } else if oracle_accepts(pal_value(w, c, h)) {
            h
        } else {
            -1
        }
    }
}

/// One detected prime palindrome, in window terms: its value, its
/// half-width and the window index of its center digit.
pub ghost struct SpecHit {
    pub value: int,
    pub half: int,
    pub center: int,
}

/// What one center contributes given the current half-width floor `m`:
/// a hit if a symmetric run of half-width `m` sits there and the expander
/// finds an accepted widening of it.
pub open spec fn step_hit(w: Seq<u64>, m: int, c: int) -> Option<SpecHit> {
    if m <= 18 && best_half(w, c, m) >= 0 {
        let h = best_half(w, c, m);
        Some(SpecHit { value: pal_value(w, c, h), half: h, center: c })
    } else {
        None
    }
}

/// The results gathered so far together with the current half-width floor.
pub ghost struct ScanState {
    pub hits: Seq<SpecHit>,
    pub floor: int,
}

/// Scanning centers `lo..hi` of window `w` left to right, starting from
/// half-width floor `m`: every hit raises the floor just past its own
/// half-width, so nothing narrower is reported afterwards.
pub open spec fn scan(w: Seq<u64>, m: int, lo: int, hi: int) -> ScanState
    decreases hi - lo,
{
    if hi <= lo {
        ScanState { hits: Seq::empty(), floor: m }
    } else {
        let prev = scan(w, m, lo, hi - 1);
        match step_hit(w, prev.floor, hi - 1) {
            Some(hit) => ScanState { hits: prev.hits.push(hit), floor: hit.half + 1 },
            None => prev,
        }
    }
}

/// A reached half-width is never below the starting one, nor above 18.
pub proof fn lemma_best_half_min(w: Seq<u64>, c: int, h: int)
    requires
        1 <= h,
    ensures
        best_half(w, c, h) == -1 || h <= best_half(w, c, h) <= 18,
    decreases 19 - h,
{
    if h <= 18 && is_pal(w, c, h) {
        lemma_best_half_min(w, c, h + 1);
    }
}

/// Past the settled half-width, no wider symmetric run (up to 18) has an
/// accepted value.
pub proof fn lemma_best_half_above(w: Seq<u64>, c: int, h: int, k: int)
    requires
        1 <= h,
        h <= k <= 18,
        is_pal(w, c, k),
        best_half(w, c, h) < k,
    ensures
        !oracle_accepts(pal_value(w, c, k)),
    decreases 19 - h,
{
    assert(is_pal(w, c, h));
    let rest = best_half(w, c, h + 1);
    if h == k {
        if rest >= 0 {
            lemma_best_half_min(w, c, h + 1);
            assert(best_half(w, c, h) == rest);
            assert(false);
        } else {
            assert(best_half(w, c, h) == if oracle_accepts(pal_value(w, c, h)) {
                h
            } else {
                -1
            });
        }
    } else {
        if rest >= 0 {
            lemma_best_half_above(w, c, h + 1, k);
        } else {
            lemma_best_half_min(w, c, h + 1);
            lemma_best_half_above(w, c, h + 1, k);
        }
    }
}

/// A settled half-width really is a symmetric run whose value the oracle
/// accepts.
pub proof fn lemma_best_half_found(w: Seq<u64>, c: int, h: int)
    requires
        1 <= h,
        best_half(w, c, h) >= 0,
    ensures
        is_pal(w, c, best_half(w, c, h)),
        oracle_accepts(pal_value(w, c, best_half(w, c, h))),
    decreases 19 - h,
{
    let rest = best_half(w, c, h + 1);
    if rest >= 0 {
        lemma_best_half_found(w, c, h + 1);
    }
}

/// Soundness of every reported hit: it lies in the scanned range, it is a
/// symmetric run of between 3 and 37 digits, its value is the value of
/// exactly those digits, the oracle accepted that value, and no wider
/// symmetric run around the same center (within 37 digits) has an
/// accepted value.
pub proof fn lemma_scan_hits_sound(w: Seq<u64>, m: int, lo: int, hi: int)
    requires
        1 <= m,
    ensures
        forall|i: int|
            0 <= i < scan(w, m, lo, hi).hits.len() ==> {
                let ht = #[trigger] scan(w, m, lo, hi).hits[i];
                &&& lo <= ht.center < hi
                &&& 1 <= ht.half <= 18
                &&& is_pal(w, ht.center, ht.half)
                &&& ht.value == pal_value(w, ht.center, ht.half)
                &&& oracle_accepts(ht.value)
                &&& (forall|k: int|
                    ht.half < k <= 18 && is_pal(w, ht.center, k)
                        ==> !oracle_accepts(pal_value(w, ht.center, k)))
            },
    decreases hi - lo,
{
    if hi > lo {
        lemma_scan_hits_sound(w, m, lo, hi - 1);
        lemma_scan_floor_monotone(w, m, lo, hi - 1);
        let prev = scan(w, m, lo, hi - 1);
        let c = hi - 1;
        match step_hit(w, prev.floor, c) {
            Some(hit) => {
                lemma_best_half_min(w, c, prev.floor);
                lemma_best_half_found(w, c, prev.floor);
                assert forall|k: int|
                    hit.half < k <= 18 && is_pal(w, c, k) implies !oracle_accepts(
                    pal_value(w, c, k),
                ) by {
                    lemma_best_half_above(w, c, prev.floor, k);
                }
                assert forall|i: int|
                    0 <= i < scan(w, m, lo, hi).hits.len() implies scan(
                    w,
                    m,
                    lo,
                    hi,
                ).hits[i] == (if i < prev.hits.len() {
                    prev.hits[i]
                } else {
                    hit
                }) by {}
            },
            None => {},
        }
    }
}

/// The monotonic floor: each reported hit is strictly wider than the one
/// before it, by at least one digit pair.
pub proof fn lemma_scan_hits_monotone(w: Seq<u64>, m: int, lo: int, hi: int)
    requires
        1 <= m,
    ensures
        forall|i: int|
            0 <= i < scan(w, m, lo, hi).hits.len() ==> m <= #[trigger] scan(
                w,
                m,
                lo,
                hi,
            ).hits[i].half && scan(w, m, lo, hi).hits[i].half < scan(w, m, lo, hi).floor,
        forall|i: int, j: int|
            0 <= i < j < scan(w, m, lo, hi).hits.len() ==> #[trigger] scan(
                w,
                m,
                lo,
                hi,
            ).hits[i].half + 1 <= #[trigger] scan(w, m, lo, hi).hits[j].half,
    decreases hi - lo,
{
    if hi > lo {
        lemma_scan_hits_monotone(w, m, lo, hi - 1);
        lemma_scan_floor_monotone(w, m, lo, hi - 1);
        let prev = scan(w, m, lo, hi - 1);
        let c = hi - 1;
        match step_hit(w, prev.floor, c) {
            Some(hit) => {
                lemma_best_half_min(w, c, prev.floor);
            },
            None => {},
        }
    }
}

/// Palindrome symmetry: the digit slice of a symmetric run reads the same
/// forwards and backwards.
pub proof fn lemma_pal_reads_same_reversed(w: Seq<u64>, c: int, h: int)
    requires
        0 <= h,
        h <= c,
        c + h < w.len(),
        is_pal(w, c, h),
    ensures
        w.subrange(c - h, c + h + 1) == w.subrange(c - h, c + h + 1).reverse(),
{
    let s = w.subrange(c - h, c + h + 1);
    assert forall|t: int| 0 <= t < s.len() implies s[t] == #[trigger] s.reverse()[t] by {
        assert(s.reverse()[t] == s[2 * h - t]);
        let k = h - t;
        if k > 0 {
            assert(w[c - k] == w[c + k]);
        } else if k < 0 {
            assert(w[c - (-k)] == w[c + (-k)]);
        }
    }
    assert(s =~= s.reverse());
}

/// Every hit of a scan over centers that keep 18 digits on each side
/// denotes a digit slice that reads the same forwards and backwards.
pub proof fn lemma_scan_hits_palindromic(w: Seq<u64>, m: int, lo: int, hi: int)
    requires
        1 <= m,
        18 <= lo,
        hi + 18 <= w.len(),
    ensures
        forall|i: int|
            0 <= i < scan(w, m, lo, hi).hits.len() ==> {
                let ht = #[trigger] scan(w, m, lo, hi).hits[i];
                w.subrange(ht.center - ht.half, ht.center + ht.half + 1) == w.subrange(
                    ht.center - ht.half,
                    ht.center + ht.half + 1,
                ).reverse()
            },
{
    lemma_scan_hits_sound(w, m, lo, hi);
    assert forall|i: int| 0 <= i < scan(w, m, lo, hi).hits.len() implies {
        let ht = #[trigger] scan(w, m, lo, hi).hits[i];
        w.subrange(ht.center - ht.half, ht.center + ht.half + 1) == w.subrange(
            ht.center - ht.half,
            ht.center + ht.half + 1,
        ).reverse()
    } by {
        let ht = scan(w, m, lo, hi).hits[i];
        lemma_pal_reads_same_reversed(w, ht.center, ht.half);
    }
}

/// A scan's floor never sinks below its starting floor.
pub proof fn lemma_scan_floor_monotone(w: Seq<u64>, m: int, lo: int, hi: int)
    requires
        1 <= m,
    ensures
        m <= scan(w, m, lo, hi).floor,
        1 <= scan(w, m, lo, hi).floor,
    decreases hi - lo,
{
    if hi > lo {
        lemma_scan_floor_monotone(w, m, lo, hi - 1);
        let prev = scan(w, m, lo, hi - 1);
        match step_hit(w, prev.floor, hi - 1) {
            Some(hit) => {
                lemma_best_half_min(w, hi - 1, prev.floor);
            },
            None => {},
        }
    }
}

/// With the floor already past half-width 18 no center can hit, so a scan
/// changes nothing.
pub proof fn lemma_scan_inert(w: Seq<u64>, m: int, lo: int, hi: int)
    requires
        m > 18,
    ensures
        scan(w, m, lo, hi) == (ScanState { hits: Seq::<SpecHit>::empty(), floor: m }),
    decreases hi - lo,
{
    if hi > lo {
        lemma_scan_inert(w, m, lo, hi - 1);
    }
}

/// Two windows that agree on the 37 digits around corresponding centers
/// make the expander settle on the same half-width.
pub proof fn lemma_best_half_congruent(w1: Seq<u64>, c1: int, w2: Seq<u64>, c2: int, h: int)
    requires
        1 <= h,
        18 <= c1,
        c1 + 18 < w1.len(),
        18 <= c2,
        c2 + 18 < w2.len(),
        forall|k: int| -18 <= k <= 18 ==> w1[c1 + k] == #[trigger] w2[c2 + k],
    ensures
        best_half(w1, c1, h) == best_half(w2, c2, h),
        best_half(w1, c1, h) >= 0 ==> pal_value(w1, c1, best_half(w1, c1, h)) == pal_value(
            w2,
            c2,
            best_half(w2, c2, h),
        ),
    decreases 19 - h,
{
    if h > 18 {
    } else {
        assert(is_pal(w1, c1, h) <==> is_pal(w2, c2, h)) by {
            if is_pal(w1, c1, h) {
                assert forall|k: int| 1 <= k <= h implies w2[c2 - k] == #[trigger] w2[c2 + k] by {
                    assert(w1[c1 + (-k)] == w2[c2 + (-k)]);
                    assert(w1[c1 + k] == w2[c2 + k]);
                    assert(w1[c1 - k] == w1[c1 + k]);
                }
            }
            if is_pal(w2, c2, h) {
                assert forall|k: int| 1 <= k <= h implies w1[c1 - k] == #[trigger] w1[c1 + k] by {
                    assert(w1[c1 + (-k)] == w2[c2 + (-k)]);
                    assert(w1[c1 + k] == w2[c2 + k]);
                    assert(w2[c2 - k] == w2[c2 + k]);
                }
            }
        }
        if is_pal(w1, c1, h) {
            lemma_best_half_congruent(w1, c1, w2, c2, h + 1);
            lemma_pal_value_congruent(w1, c1, w2, c2, h);
        }
    }
}

/// Matching surroundings give matching values at every half-width.
pub proof fn lemma_pal_value_congruent(w1: Seq<u64>, c1: int, w2: Seq<u64>, c2: int, h: int)
    requires
        0 <= h <= 18,
        18 <= c1,
        c1 + 18 < w1.len(),
        18 <= c2,
        c2 + 18 < w2.len(),
        forall|k: int| -18 <= k <= 18 ==> w1[c1 + k] == #[trigger] w2[c2 + k],
    ensures
        pal_value(w1, c1, h) == pal_value(w2, c2, h),
{
    assert(w1.subrange(c1 - h, c1 + h + 1) =~= w2.subrange(c2 - h, c2 + h + 1)) by {
        assert forall|t: int| 0 <= t < 2 * h + 1 implies #[trigger] w1.subrange(
            c1 - h,
            c1 + h + 1,
        )[t] == w2.subrange(c2 - h, c2 + h + 1)[t] by {
            assert(w1[c1 + (t - h)] == w2[c2 + (t - h)]);
        }
    }
}

/// Scanning a shifted copy of the same digits yields the same hits with
/// shifted centers and the same final floor.
pub proof fn lemma_scan_congruent(w1: Seq<u64>, w2: Seq<u64>, d: int, m: int, lo: int, hi: int)
    requires
        1 <= m,
        lo <= hi,
        18 <= lo,
        hi + 18 <= w1.len(),
        18 <= lo + d,
        hi + d + 18 <= w2.len(),
        forall|t: int| lo - 18 <= t < hi + 18 ==> w1[t] == w2[t + d],
    ensures
        scan(w2, m, lo + d, hi + d).floor == scan(w1, m, lo, hi).floor,
        scan(w2, m, lo + d, hi + d).hits.len() == scan(w1, m, lo, hi).hits.len(),
        forall|i: int|
            0 <= i < scan(w1, m, lo, hi).hits.len() ==> {
                let h1 = #[trigger] scan(w1, m, lo, hi).hits[i];
                let h2 = scan(w2, m, lo + d, hi + d).hits[i];
                h2.value == h1.value && h2.half == h1.half && h2.center == h1.center + d
            },
    decreases hi - lo,
{
    if hi <= lo {
    } else {
        lemma_scan_congruent(w1, w2, d, m, lo, hi - 1);
        lemma_scan_floor_monotone(w1, m, lo, hi - 1);
        let prev1 = scan(w1, m, lo, hi - 1);
        let prev2 = scan(w2, m, lo + d, hi - 1 + d);
        let c1 = hi - 1;
        let c2 = hi - 1 + d;
        assert(prev2.floor == prev1.floor);
        if prev1.floor <= 18 {
            assert forall|k: int| -18 <= k <= 18 implies w1[c1 + k] == #[trigger] w2[c2 + k] by {
                assert(w1[c1 + k] == w2[(c1 + k) + d]);
            }
            lemma_best_half_congruent(w1, c1, w2, c2, prev1.floor);
        }
        assert(scan(w2, m, lo + d, hi + d) == (match step_hit(w2, prev2.floor, c2) {
            Some(hit) => ScanState { hits: prev2.hits.push(hit), floor: hit.half + 1 },
            None => prev2,
        }));
    }
}

/// Digits appended past the scanned range do not change a scan.
pub proof fn lemma_scan_prefix_stable(w: Seq<u64>, ext: Seq<u64>, m: int, lo: int, hi: int)
    requires
        1 <= m,
        lo <= hi,
        18 <= lo,
        hi + 18 <= w.len(),
    ensures
        scan(w + ext, m, lo, hi) == scan(w, m, lo, hi),
    decreases hi - lo,
{
    if hi <= lo {
        assert(scan(w + ext, m, lo, hi) =~= scan(w, m, lo, hi));
    } else {
        lemma_scan_prefix_stable(w, ext, m, lo, hi - 1);
        lemma_scan_floor_monotone(w, m, lo, hi - 1);
        let prev = scan(w, m, lo, hi - 1);
        let c = hi - 1;
        if prev.floor <= 18 {
            assert forall|k: int| -18 <= k <= 18 implies (w + ext)[c + k] == #[trigger] w[c + k]
                by {}
            lemma_best_half_congruent(w + ext, c, w, c, prev.floor);
        }
        assert(scan(w + ext, m, lo, hi) =~= scan(w, m, lo, hi));
    }
}

/// A scan may be cut at any midpoint: the second leg starts at the floor
/// the first leg reached, and the hits concatenate.
pub proof fn lemma_scan_split(w: Seq<u64>, m: int, lo: int, mid: int, hi: int)
    requires
        lo <= mid <= hi,
    ensures
        scan(w, m, lo, hi).hits =~= scan(w, m, lo, mid).hits + scan(
            w,
            scan(w, m, lo, mid).floor,
            mid,
            hi,
        ).hits,
        scan(w, m, lo, hi).floor == scan(w, scan(w, m, lo, mid).floor, mid, hi).floor,
    decreases hi - mid,
{
    if hi == mid {
        assert(scan(w, m, lo, hi).hits =~= scan(w, m, lo, mid).hits + scan(
            w,
            scan(w, m, lo, mid).floor,
            mid,
            hi,
        ).hits);
    } else {
        lemma_scan_split(w, m, lo, mid, hi - 1);
    }
}

} // verus!
