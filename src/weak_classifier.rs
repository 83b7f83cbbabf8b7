use vstd::prelude::*;
use vstd::arithmetic::power2::{pow2, lemma_pow2_unfold, lemma2_to64, lemma_pow2_strictly_increases};
use crate::constants::{WH, WL};
use crate::features::{all_features, enumerate};
use crate::geometry::Feature;
use crate::integral_image::{IntegralImage, IntegralImageTrait};
use crate::training::{mistake_total, seq_total, TrainingImages, WEIGHT_ONE};

verus! {

/// Vote weights are fixed-point numbers with this many fractional bits.
pub const VOTE_FRACTION_BITS: u64 = 16;

/// The vote given to a weak classifier that makes no weighted mistake.
pub const MAX_VOTE: i64 = 0x40_0000;

/// A Haar-like feature with a threshold and a polarity: it accepts a
/// sample when `pos_polarity == (value < threshold)`.
#[derive(Debug, Clone, Copy)]
pub struct WeakClassifier {
    pub feature: Feature,
    pub threshold: i64,
    pub pos_polarity: bool,
}

/// A sample key for the threshold search: the feature's value on the
/// sample and the sample's index.
pub type SampleKey = (i64, usize);

/// The lexicographic order of keys.
pub open spec fn key_le(a: SampleKey, b: SampleKey) -> bool {
    a.0 < b.0 || (a.0 == b.0 && a.1 <= b.1)
}

pub open spec fn keys_sorted(s: Seq<SampleKey>) -> bool {
    forall|i: int, j: int| 0 <= i < j < s.len() ==> key_le(#[trigger] s[i], #[trigger] s[j])
}

/// Relies on `slice::sort_unstable`: it reorders the elements into
/// ascending order; tuples compare lexicographically.
#[verifier::external_body]
fn sort_keys(v: &mut Vec<SampleKey>)
    ensures
        final(v)@.to_multiset() == old(v)@.to_multiset(),
        keys_sorted(final(v)@),
{
    v.sort_unstable();
}

/// Adds the weight of the sample behind a key when its label is `lab`.
pub open spec fn weight_step(ws: Seq<u64>, ls: Seq<bool>, lab: bool) -> spec_fn(int, SampleKey) -> int {
    |acc: int, kv: SampleKey|
        acc + if ls[kv.1 as int] == lab {
            ws[kv.1 as int] as int
        } else {
            0
        }
}

/// Weight of the samples with label `lab` among the keys of `s`.
pub open spec fn label_weight(s: Seq<SampleKey>, ws: Seq<u64>, ls: Seq<bool>, lab: bool) -> int {
    s.fold_left(0int, weight_step(ws, ls, lab))
}

/// The weight behind a set of keys does not depend on their order.
proof fn lemma_label_weight_permutation(
    a: Seq<SampleKey>,
    b: Seq<SampleKey>,
    ws: Seq<u64>,
    ls: Seq<bool>,
    lab: bool,
)
    requires
        a.to_multiset() == b.to_multiset(),
    ensures
        label_weight(a, ws, ls, lab) == label_weight(b, ws, ls, lab),
{
    let f = weight_step(ws, ls, lab);
    assert(vstd::seq_lib::commutative_foldl(f)) by {
        assert forall|x: SampleKey, y: SampleKey, v: int| #[trigger] f(f(v, x), y) == f(f(v, y), x) by {}
    }
    vstd::seq_lib::lemma_fold_left_permutation(a, b, f, 0int);
}

/// Number of samples with label `lab` among the keys of `s`.
pub open spec fn label_count(s: Seq<SampleKey>, ls: Seq<bool>, lab: bool) -> int
    decreases s.len(),
{
    if s.len() == 0 {
        0
    } else {
        label_count(s.drop_last(), ls, lab) + if ls[s.last().1 as int] == lab {
            1int
        } else {
            0
        }
    }
}

/// The weighted error of cutting the sorted keys right after position `k`:
/// the better of the two polarities.
pub open spec fn sweep_error(s: Seq<SampleKey>, ws: Seq<u64>, ls: Seq<bool>, k: int) -> int {
    let pre = s.subrange(0, k + 1);
    let fs = label_weight(pre, ws, ls, true);
    let bg = label_weight(pre, ws, ls, false);
    let afs = label_weight(s, ws, ls, true);
    let abg = label_weight(s, ws, ls, false);
    let e1 = bg + (afs - fs);
    let e2 = fs + (abg - bg);
    if e1 <= e2 {
        e1
    } else {
        e2
    }
}

/// The first of the positions `0 .. k` with the least sweep error.
pub open spec fn best_position(s: Seq<SampleKey>, ws: Seq<u64>, ls: Seq<bool>, k: int) -> int
    decreases k,
{
    if k <= 1 {
        0
    } else {
        let b = best_position(s, ws, ls, k - 1);
        if sweep_error(s, ws, ls, k - 1) < sweep_error(s, ws, ls, b) {
            k - 1
        } else {
            b
        }
    }
}

/// The threshold and polarity chosen by sweeping the sorted keys `s`: the
/// value at the best position, and whether more positives than negatives
/// lie at or before it.
pub open spec fn chosen_cut(s: Seq<SampleKey>, ws: Seq<u64>, ls: Seq<bool>) -> (i64, bool) {
    let p = best_position(s, ws, ls, s.len() as int);
    let pre = s.subrange(0, p + 1);
    (s[p].0, label_count(pre, ls, true) > label_count(pre, ls, false))
}

/// The key of every sample under `feat`, in sample order.
pub open spec fn feature_keys(feat: Feature, set: TrainingImages) -> Seq<SampleKey> {
    Seq::new(
        set.spec_len() as nat,
        |k: int| (feat.value(&set.images()[k]) as i64, k as usize),
    )
}

/// `s` holds the keys of every sample under `feat`, in ascending order.
pub open spec fn sorted_keys_of(s: Seq<SampleKey>, feat: Feature, set: TrainingImages) -> bool {
    s.to_multiset() == feature_keys(feat, set).to_multiset() && keys_sorted(s)
}

/// What the threshold search leaves in a weak classifier: the cut chosen on
/// the ascending order of the samples' keys.
pub open spec fn threshold_found(wc: WeakClassifier, set: TrainingImages) -> bool {
    &&& exists|s: Seq<SampleKey>| sorted_keys_of(s, wc.feature, set)
    &&& forall|s: Seq<SampleKey>|
        #[trigger] sorted_keys_of(s, wc.feature, set) ==> (wc.threshold, wc.pos_polarity)
            == chosen_cut(s, set.weights(), set.labels())
}

/// Repeated doubling of `d` while it stays at most half of `num`: the
/// number of doublings `k` and the final `d`, so that `d <= num < 2 * d`.
pub open spec fn int_log2(num: int, d: int, k: int) -> (int, int)
    decreases num - d,
{
    if d <= 0 || num < 2 * d {
        (k, d)
    } else {
        int_log2(num, 2 * d, k + 1)
    }
}

/// The next `bits` binary digits of the base-2 logarithm of `m / 2^30`,
/// for `2^30 <= m < 2^31`, appended to `acc`: square, and a digit is one
/// when the square reaches two.
pub open spec fn frac_log2(m: int, bits: nat, acc: int) -> int
    decreases bits,
{
    if bits == 0 {
        acc
    } else {
        let sq = m * m / 0x4000_0000;
        if sq >= 0x8000_0000 {
            frac_log2(sq / 2, (bits - 1) as nat, 2 * acc + 1)
        } else {
            frac_log2(sq, (bits - 1) as nat, 2 * acc)
        }
    }
}

/// `log2(num / den)` in fixed point with `VOTE_FRACTION_BITS` fractional
/// bits, digit by digit, for `num >= den > 0`.
pub open spec fn log2_ratio(num: int, den: int) -> int {
    let (k, d) = int_log2(num, den, 0);
    k * 0x1_0000 + frac_log2(num * 0x4000_0000 / d, 16, 0)
}

/// The vote of a weak classifier with weighted error `err` out of `total`:
/// `log(1 / beta)` for `beta = err / (total - err)` (in base 2, fixed
/// point); `MAX_VOTE` for a classifier without error and zero for one that
/// is always wrong.
pub open spec fn vote_for(err: int, total: int) -> int {
    if err <= 0 {
        MAX_VOTE as int
    } else if err >= total {
        0
    } else if total - err >= err {
        log2_ratio(total - err, err)
    } else {
        -log2_ratio(err, total - err)
    }
}

proof fn lemma_int_log2_grows(num: int, d: int, k: int)
    ensures
        int_log2(num, d, k).0 >= k,
    decreases num - d,
{
    if !(d <= 0 || num < 2 * d) {
        lemma_int_log2_grows(num, 2 * d, k + 1);
    }
}

proof fn lemma_frac_log2_nonneg(m: int, bits: nat, acc: int)
    requires
        acc >= 0,
    ensures
        frac_log2(m, bits, acc) >= 0,
    decreases bits,
{
    if bits > 0 {
        let sq = m * m / 0x4000_0000;
        if sq >= 0x8000_0000 {
            lemma_frac_log2_nonneg(sq / 2, (bits - 1) as nat, 2 * acc + 1);
        } else {
            lemma_frac_log2_nonneg(sq, (bits - 1) as nat, 2 * acc);
        }
    }
}

/// The vote has the sign of the classifier's edge over chance: it is not
/// negative when the classifier errs on at most half of the weight, not
/// positive when it errs on more, the largest when it makes no mistake and
/// zero when it is always wrong.
pub proof fn lemma_vote_sign(err: int, total: int)
    requires
        0 <= err,
    ensures
        err == 0 ==> vote_for(err, total) == MAX_VOTE,
        0 < err && total <= err ==> vote_for(err, total) == 0,
        0 < err < total && 2 * err <= total ==> vote_for(err, total) >= 0,
        0 < err < total && 2 * err > total ==> vote_for(err, total) <= 0,
{
    if 0 < err < total {
        if total - err >= err {
            lemma_int_log2_grows(total - err, err, 0);
            let (k, d) = int_log2(total - err, err, 0);
            lemma_frac_log2_nonneg((total - err) * 0x4000_0000 / d, 16, 0);
            assert(k * 0x1_0000 >= 0) by (nonlinear_arith)
                requires
                    k >= 0,
            ;
        } else {
            lemma_int_log2_grows(err, total - err, 0);
            let (k, d) = int_log2(err, total - err, 0);
            lemma_frac_log2_nonneg(err * 0x4000_0000 / d, 16, 0);
            assert(k * 0x1_0000 >= 0) by (nonlinear_arith)
                requires
                    k >= 0,
            ;
        }
    }
}

proof fn lemma_int_log2_bounds(num: int, d: int, k: int)
    requires
        0 < d <= num,
    ensures
        int_log2(num, d, k).1 <= num < 2 * int_log2(num, d, k).1,
        int_log2(num, d, k).1 > 0,
    decreases num - d,
{
    if num >= 2 * d {
        lemma_int_log2_bounds(num, 2 * d, k + 1);
    }
}

/// A larger ratio `n1 / d1 >= n2 / d2` takes at least as many doublings;
/// with as many, both final divisors keep the ratio of the starting ones.
proof fn lemma_int_log2_mono(n1: int, d1: int, n2: int, d2: int, k: int)
    requires
        0 < d1 <= n1,
        0 < d2 <= n2,
        n1 * d2 >= n2 * d1,
    ensures
        int_log2(n1, d1, k).0 >= int_log2(n2, d2, k).0,
        int_log2(n1, d1, k).0 == int_log2(n2, d2, k).0 ==> int_log2(n1, d1, k).1 * d2 == int_log2(n2, d2, k).1 * d1,
    decreases n1 - d1,
{
    let go1 = n1 >= 2 * d1;
    let go2 = n2 >= 2 * d2;
    if go1 {
        if go2 {
            assert(n1 * (2 * d2) >= n2 * (2 * d1)) by (nonlinear_arith)
                requires
                    n1 * d2 >= n2 * d1,
            ;
            lemma_int_log2_mono(n1, 2 * d1, n2, 2 * d2, k + 1);
            let (a, b) = (int_log2(n1, d1, k).1, int_log2(n2, d2, k).1);
            assert(int_log2(n1, d1, k).0 == int_log2(n2, d2, k).0 ==> a * d2 == b * d1) by (nonlinear_arith)
                requires
                    int_log2(n1, d1, k).0 == int_log2(n2, d2, k).0 ==> a * (2 * d2) == b * (2 * d1),
            ;
        } else {
            lemma_int_log2_grows(n1, 2 * d1, k + 1);
        }
    } else if !go2 {
        assert(d1 * d2 == d2 * d1) by (nonlinear_arith);
    } else {
        assert(false) by (nonlinear_arith)
            requires
                n1 < 2 * d1,
                n2 >= 2 * d2,
                n1 * d2 >= n2 * d1,
                d1 > 0,
                d2 > 0,
        ;
    }
}

proof fn lemma_frac_log2_bounds(m: int, bits: nat, acc: int)
    requires
        0x4000_0000 <= m < 0x8000_0000,
    ensures
        acc * vstd::arithmetic::power2::pow2(bits) <= frac_log2(m, bits, acc) < (acc + 1) * vstd::arithmetic::power2::pow2(bits),
    decreases bits,
{
    if bits == 0 {
        vstd::arithmetic::power2::lemma2_to64();
    } else {
        vstd::arithmetic::power2::lemma_pow2_unfold(bits);
        let p = vstd::arithmetic::power2::pow2((bits - 1) as nat);
        vstd::arithmetic::power2::lemma_pow2_pos((bits - 1) as nat);
        let sq = m * m / 0x4000_0000;
        lemma_square_range(m);
        if sq >= 0x8000_0000 {
            lemma_frac_log2_bounds(sq / 2, (bits - 1) as nat, 2 * acc + 1);
        } else {
            lemma_frac_log2_bounds(sq, (bits - 1) as nat, 2 * acc);
        }
        assert(acc * (2 * p) == (2 * acc) * p && (acc + 1) * (2 * p) == (2 * acc + 2) * p) by (nonlinear_arith);
        assert((2 * acc) * p <= (2 * acc + 1) * p <= (2 * acc + 2) * p) by (nonlinear_arith)
            requires
                p > 0,
        ;
    }
}

proof fn lemma_square_range(m: int)
    requires
        0x4000_0000 <= m < 0x8000_0000,
    ensures
        0x4000_0000 <= m * m / 0x4000_0000 < 0x1_0000_0000,
{
    assert(0x4000_0000 * 0x4000_0000 <= m * m < 0x8000_0000 * 0x8000_0000) by (nonlinear_arith)
        requires
            0x4000_0000 <= m < 0x8000_0000,
    ;
}

proof fn lemma_frac_log2_mono(m1: int, m2: int, bits: nat, acc: int)
    requires
        0x4000_0000 <= m2 <= m1 < 0x8000_0000,
    ensures
        frac_log2(m1, bits, acc) >= frac_log2(m2, bits, acc),
    decreases bits,
{
    if bits > 0 {
        let s1 = m1 * m1 / 0x4000_0000;
        let s2 = m2 * m2 / 0x4000_0000;
        lemma_square_range(m1);
        lemma_square_range(m2);
        assert(m2 * m2 <= m1 * m1) by (nonlinear_arith)
            requires
                0 <= m2 <= m1,
        ;
        vstd::arithmetic::div_mod::lemma_div_is_ordered(m2 * m2, m1 * m1, 0x4000_0000);
        let b = (bits - 1) as nat;
        if s1 >= 0x8000_0000 && s2 >= 0x8000_0000 {
            lemma_frac_log2_mono(s1 / 2, s2 / 2, b, 2 * acc + 1);
        } else if s2 < 0x8000_0000 && s1 < 0x8000_0000 {
            lemma_frac_log2_mono(s1, s2, b, 2 * acc);
        } else {
            lemma_frac_log2_bounds(s1 / 2, b, 2 * acc + 1);
            lemma_frac_log2_bounds(s2, b, 2 * acc);
        }
    }
}

/// The fixed-point logarithm does not decrease with the ratio:
/// `n1 / d1 >= n2 / d2` gives `log2_ratio(n1, d1) >= log2_ratio(n2, d2)`.
proof fn lemma_log2_ratio_mono(n1: int, d1: int, n2: int, d2: int)
    requires
        0 < d1 <= n1,
        0 < d2 <= n2,
        n1 * d2 >= n2 * d1,
    ensures
        log2_ratio(n1, d1) >= log2_ratio(n2, d2),
{
    lemma_int_log2_mono(n1, d1, n2, d2, 0);
    lemma_int_log2_bounds(n1, d1, 0);
    lemma_int_log2_bounds(n2, d2, 0);
    let (k1, e1) = int_log2(n1, d1, 0);
    let (k2, e2) = int_log2(n2, d2, 0);
    let c: int = 0x4000_0000;
    let m1 = n1 * c / e1;
    let m2 = n2 * c / e2;
    lemma_quotient_range(n1, e1);
    lemma_quotient_range(n2, e2);
    vstd::arithmetic::power2::lemma2_to64();
    lemma_frac_log2_bounds(m1, 16, 0);
    lemma_frac_log2_bounds(m2, 16, 0);
    if k1 == k2 {
        assert(n1 * e2 >= n2 * e1) by (nonlinear_arith)
            requires
                e1 * d2 == e2 * d1,
                n1 * d2 >= n2 * d1,
                d1 > 0,
                d2 > 0,
                e1 > 0,
                e2 > 0,
        ;
        lemma_quotient_mono(n1, e1, n2, e2, c);
        lemma_frac_log2_mono(m1, m2, 16, 0);
    } else {
        assert(k1 * 0x1_0000 >= k2 * 0x1_0000 + 0x1_0000) by (nonlinear_arith)
            requires
                k1 > k2,
        ;
    }
}

proof fn lemma_quotient_range(n: int, e: int)
    requires
        0 < e <= n < 2 * e,
    ensures
        0x4000_0000 <= n * 0x4000_0000 / e < 0x8000_0000,
{
    let c: int = 0x4000_0000;
    assert(e * c <= n * c < e * (2 * c)) by (nonlinear_arith)
        requires
            0 < e <= n < 2 * e,
            c > 0,
    ;
    assert(e * c == c * e && e * (2 * c) == (2 * c) * e) by (nonlinear_arith);
    vstd::arithmetic::div_mod::lemma_div_is_ordered(e * c, n * c, e);
    vstd::arithmetic::div_mod::lemma_div_multiples_vanish(c, e);
    vstd::arithmetic::div_mod::lemma_div_multiples_vanish(2 * c, e);
    vstd::arithmetic::div_mod::lemma_div_by_multiple_is_strongly_ordered(n * c, (2 * c) * e, 2 * c, e);
}

proof fn lemma_quotient_mono(n1: int, e1: int, n2: int, e2: int, c: int)
    requires
        e1 > 0,
        e2 > 0,
        n2 >= 0,
        c >= 0,
        n1 * e2 >= n2 * e1,
    ensures
        n1 * c / e1 >= n2 * c / e2,
{
    let q = n2 * c / e2;
    vstd::arithmetic::div_mod::lemma_fundamental_div_mod(n2 * c, e2);
    vstd::arithmetic::div_mod::lemma_mod_bound(n2 * c, e2);
    assert(q * e1 <= n1 * c) by (nonlinear_arith)
        requires
            e2 * q <= n2 * c,
            n1 * e2 >= n2 * e1,
            e1 > 0,
            e2 > 0,
            c >= 0,
    ;
    vstd::arithmetic::div_mod::lemma_div_is_ordered(q * e1, n1 * c, e1);
    vstd::arithmetic::div_mod::lemma_div_multiples_vanish(q, e1);
    assert(q * e1 == e1 * q) by (nonlinear_arith);
}

/// The vote does not grow with the error: for errors `0 < err1 <= err2`
/// below the total, `vote_for(err1, total) >= vote_for(err2, total)`.
pub proof fn lemma_vote_antitone(err1: int, err2: int, total: int)
    requires
        0 < err1 <= err2 < total,
    ensures
        vote_for(err1, total) >= vote_for(err2, total),
{
    lemma_vote_sign(err1, total);
    lemma_vote_sign(err2, total);
    if 2 * err2 <= total {
        assert((total - err1) * err2 >= (total - err2) * err1) by (nonlinear_arith)
            requires
                0 < err1 <= err2 < total,
        ;
        lemma_log2_ratio_mono(total - err1, err1, total - err2, err2);
    } else if 2 * err1 > total {
        assert(err2 * (total - err1) >= err1 * (total - err2)) by (nonlinear_arith)
            requires
                0 < err1 <= err2 < total,
        ;
        lemma_log2_ratio_mono(err2, total - err2, err1, total - err1);
    }
}

fn log2_ratio_exec(num: u64, den: u64) -> (r: i64)
    requires
        0 < den <= num <= WEIGHT_ONE,
    ensures
        r == log2_ratio(num as int, den as int),
        0 <= r,
{
    let mut d: u64 = den;
    let mut k: i64 = 0;
    while d <= num / 2
        invariant
            0 < den <= d <= num <= WEIGHT_ONE,
            0 <= k < d,
            int_log2(num as int, d as int, k as int) == int_log2(num as int, den as int, 0),
        decreases num - d,
    {
        d = d * 2;
        k = k + 1;
    }
    proof {
        assert(2 * d > num);
        assert((num as int) * 0x4000_0000 / (d as int) >= 0x4000_0000) by (nonlinear_arith)
            requires
                num >= d,
                d > 0,
        ;
        assert((num as int) * 0x4000_0000 / (d as int) < 0x8000_0000) by (nonlinear_arith)
            requires
                num < 2 * d,
                d > 0,
        ;
    }
    let m0: u64 = ((num as u128) * 0x4000_0000 / (d as u128)) as u64;
    let mut m: u64 = m0;
    let mut acc: u64 = 0;
    let mut lim: u64 = 1;
    let mut i: u64 = 0;
    proof {
        lemma2_to64();
    }
    while i < 16
        invariant
            i <= 16,
            0x4000_0000 <= m < 0x8000_0000,
            acc < lim,
            lim == pow2(i as nat),
            pow2(16) == 0x1_0000,
            frac_log2(m as int, (16 - i) as nat, acc as int) == frac_log2(m0 as int, 16, 0),
        decreases 16 - i,
    {
        proof {
            assert((m as int) * (m as int) / 0x4000_0000 >= 0x4000_0000) by (nonlinear_arith)
                requires
                    m >= 0x4000_0000,
            ;
            assert((m as int) * (m as int) / 0x4000_0000 < 0x1_0000_0000) by (nonlinear_arith)
                requires
                    m < 0x8000_0000,
            ;
            lemma_pow2_unfold((i + 1) as nat);
            lemma_pow2_strictly_increases(i as nat, 16);
        }
        let sq: u64 = m * m / 0x4000_0000;
        if sq >= 0x8000_0000 {
            m = sq / 2;
            acc = 2 * acc + 1;
        } else {
            m = sq;
            acc = 2 * acc;
        }
        lim = lim * 2;
        i = i + 1;
    }
    k * 0x1_0000 + acc as i64
}

/// The vote earned by a weak classifier with weighted error `err` out of a
/// total weight `total`.
pub fn vote_weight(err: u64, total: u64) -> (v: i64)
    requires
        total <= WEIGHT_ONE,
    ensures
        v == vote_for(err as int, total as int),
{
    if err == 0 {
        MAX_VOTE
    } else if err >= total {
        0
    } else if total - err >= err {
        log2_ratio_exec(total - err, err)
    } else {
        -log2_ratio_exec(err, total - err)
    }
}

/// Two ascending sequences with the same elements are equal.
pub proof fn lemma_sorted_unique(a: Seq<SampleKey>, b: Seq<SampleKey>)
    requires
        a.to_multiset() == b.to_multiset(),
        keys_sorted(a),
        keys_sorted(b),
    ensures
        a == b,
    decreases a.len(),
{
    broadcast use vstd::seq_lib::group_to_multiset_ensures;

    a.to_multiset_ensures();
    b.to_multiset_ensures();
    assert(a.len() == b.len());
    if a.len() == 0 {
        assert(a =~= b);
    } else {
        let n = a.len() - 1;
        let x = a.last();
        let y = b.last();
        assert(a.to_multiset().count(x) > 0);
        assert(b.contains(x));
        let j = choose|j: int| 0 <= j < b.len() && b[j] == x;
        assert(b.to_multiset().count(y) > 0);
        assert(a.contains(y));
        let i = choose|i: int| 0 <= i < a.len() && a[i] == y;
        if i < n {
            assert(key_le(a[i], a[n]));
        }
        if j < n {
            assert(key_le(b[j], b[n]));
        }
        assert(x == y);
        assert(a.remove(n) =~= a.drop_last());
        assert(b.remove(n) =~= b.drop_last());
        assert(a.drop_last().to_multiset() == b.drop_last().to_multiset());
        lemma_sorted_unique(a.drop_last(), b.drop_last());
        assert(a =~= a.drop_last().push(x));
        assert(b =~= b.drop_last().push(y));
    }
}

/// Threshold search is deterministic: two weak classifiers over the same
/// feature, each left by the threshold search on the same samples and
/// weights, hold the same threshold and polarity.
pub proof fn lemma_threshold_search_deterministic(
    a: WeakClassifier,
    b: WeakClassifier,
    set: TrainingImages,
)
    requires
        a.feature == b.feature,
        threshold_found(a, set),
        threshold_found(b, set),
    ensures
        a.threshold == b.threshold,
        a.pos_polarity == b.pos_polarity,
{
    let s = choose|s: Seq<SampleKey>| sorted_keys_of(s, a.feature, set);
    assert(sorted_keys_of(s, b.feature, set));
}

proof fn lemma_label_weight_step(s: Seq<SampleKey>, ws: Seq<u64>, ls: Seq<bool>, lab: bool, k: int)
    requires
        0 <= k < s.len(),
    ensures
        label_weight(s.subrange(0, k + 1), ws, ls, lab) == label_weight(s.subrange(0, k), ws, ls, lab)
            + if ls[s[k].1 as int] == lab {
            ws[s[k].1 as int] as int
        } else {
            0
        },
        label_count(s.subrange(0, k + 1), ls, lab) == label_count(s.subrange(0, k), ls, lab) + if ls[s[k].1 as int] == lab {
            1int
        } else {
            0
        },
{
    assert(s.subrange(0, k + 1).drop_last() =~= s.subrange(0, k));
}

proof fn lemma_label_weight_prefix(s: Seq<SampleKey>, ws: Seq<u64>, ls: Seq<bool>, lab: bool, k: int)
    requires
        0 <= k <= s.len(),
    ensures
        0 <= label_weight(s.subrange(0, k), ws, ls, lab) <= label_weight(s, ws, ls, lab),
        0 <= label_count(s.subrange(0, k), ls, lab) <= k,
    decreases s.len() - k,
{
    if k < s.len() {
        lemma_label_weight_prefix(s, ws, ls, lab, k + 1);
        lemma_label_weight_step(s, ws, ls, lab, k);
        lemma_label_weight_nonneg(s.subrange(0, k), ws, ls, lab);
    } else {
        assert(s.subrange(0, k) =~= s);
        lemma_label_weight_nonneg(s, ws, ls, lab);
    }
}

proof fn lemma_label_weight_nonneg(s: Seq<SampleKey>, ws: Seq<u64>, ls: Seq<bool>, lab: bool)
    ensures
        label_weight(s, ws, ls, lab) >= 0,
        0 <= label_count(s, ls, lab) <= s.len(),
    decreases s.len(),
{
    if s.len() > 0 {
        lemma_label_weight_nonneg(s.drop_last(), ws, ls, lab);
    }
}

impl WeakClassifier {
    /// A weak classifier over `feature` with threshold zero and negative
    /// polarity, before any threshold search.
    pub fn new(feature: Feature) -> (r: WeakClassifier)
        ensures
            r.feature == feature,
            r.threshold == 0,
            !r.pos_polarity,
    {
        WeakClassifier { feature, threshold: 0, pos_polarity: false }
    }

    /// Whether the classifier accepts the sample read through `ii`.
    pub open spec fn accepts<I: IntegralImageTrait>(self, ii: &I) -> bool {
        self.pos_polarity == (self.feature.value(ii) < self.threshold)
    }

    /// The classifier's answer on every sample of `set`.
    pub open spec fn predictions(self, set: TrainingImages) -> Seq<bool> {
        Seq::new(set.spec_len() as nat, |k: int| self.accepts(&set.images()[k]))
    }

    /// The weight of the samples of `set` that the classifier gets wrong.
    pub open spec fn weighted_error(self, set: TrainingImages) -> int {
        mistake_total(set.weights(), set.labels(), self.predictions(set))
    }

    /// Classifies a sample: `pos_polarity == (value < threshold)`.
    pub fn classify<I: IntegralImageTrait>(&self, ii: &I) -> (r: bool)
        requires
            self.feature.admitted_by(ii),
        ensures
            r == self.accepts(ii),
    {
        self.pos_polarity == (self.feature.evaluate(ii) < self.threshold)
    }

    /// Finds the threshold and polarity of least weighted error: sorts the
    /// samples by the feature's value (ties by sample order), sweeps them
    /// accumulating the weight of positives `fs` and negatives `bg` seen,
    /// and keeps the first position where
    /// `min(bg + (afs - fs), fs + (abg - bg))` is smallest; the threshold
    /// becomes the value there and the polarity whether more positives than
    /// negatives lie at or before it.
    pub fn calculate_threshold(&mut self, set: &TrainingImages)
        requires
            set.wf(),
            set.spec_len() > 0,
            old(self).feature.fits(set.spec_width(), set.spec_height()),
        ensures
            final(self).feature == old(self).feature,
            threshold_found(*final(self), *set),
    {
        let n = set.len();
        let ghost ws = set.weights();
        let ghost ls = set.labels();
        let ghost fk = feature_keys(self.feature, *set);
        let mut keys: Vec<SampleKey> = Vec::new();
        let mut afs: u64 = 0;
        let mut abg: u64 = 0;
        let mut k: usize = 0;
        while k < n
            invariant
                k <= n,
                n == set.spec_len(),
                set.wf(),
                self.feature.fits(set.spec_width(), set.spec_height()),
                ws == set.weights(),
                ls == set.labels(),
                fk == feature_keys(self.feature, *set),
                keys@ == fk.subrange(0, k as int),
                afs == label_weight(keys@, ws, ls, true),
                abg == label_weight(keys@, ws, ls, false),
                afs + abg == seq_total(ws.subrange(0, k as int)),
            decreases n - k,
        {
            let img = set.image(k);
            let v = self.feature.evaluate(img);
            proof {
                crate::training::lemma_total_bounds(ws, k + 1);
                assert(ws.subrange(0, k + 1).drop_last() =~= ws.subrange(0, k as int));
            }
            let ghost before = keys@;
            keys.push((v, k));
            proof {
                assert(keys@.drop_last() =~= before);
                assert(keys@ =~= fk.subrange(0, k + 1));
            }
            if set.is_object(k) {
                afs = afs + set.weight(k);
            } else {
                abg = abg + set.weight(k);
            }
            k = k + 1;
        }
        proof {
            assert(keys@ =~= fk);
            assert(ws.subrange(0, n as int) =~= ws);
        }
        let ghost unsorted = keys@;
        sort_keys(&mut keys);
        proof {
            lemma_label_weight_permutation(unsorted, keys@, ws, ls, true);
            lemma_label_weight_permutation(unsorted, keys@, ws, ls, false);
            keys@.to_multiset_ensures();
            fk.to_multiset_ensures();
            assert forall|m: int| 0 <= m < keys@.len() implies (#[trigger] keys@[m]).1 < n by {
                assert(keys@.to_multiset().count(keys@[m]) > 0);
                assert(fk.contains(keys@[m]));
            }
        }
        let mut fs: u64 = 0;
        let mut bg: u64 = 0;
        let mut cf: usize = 0;
        let mut cg: usize = 0;
        let mut best: usize = 0;
        let mut best_err: u64 = 0;
        let mut pol: bool = false;
        let mut k: usize = 0;
        while k < n
            invariant
                k <= n,
                n == set.spec_len(),
                set.wf(),
                ws == set.weights(),
                ls == set.labels(),
                keys@.len() == n,
                forall|m: int| 0 <= m < n ==> (#[trigger] keys@[m]).1 < n,
                afs == label_weight(keys@, ws, ls, true),
                abg == label_weight(keys@, ws, ls, false),
                afs + abg == seq_total(ws),
                seq_total(ws) <= crate::training::MAX_TOTAL_WEIGHT,
                fs == label_weight(keys@.subrange(0, k as int), ws, ls, true),
                bg == label_weight(keys@.subrange(0, k as int), ws, ls, false),
                cf == label_count(keys@.subrange(0, k as int), ls, true),
                cg == label_count(keys@.subrange(0, k as int), ls, false),
                k > 0 ==> {
                    &&& best < k
                    &&& best == best_position(keys@, ws, ls, k as int)
                    &&& best_err == sweep_error(keys@, ws, ls, best as int)
                    &&& pol == (label_count(keys@.subrange(0, best + 1), ls, true)
                        > label_count(keys@.subrange(0, best + 1), ls, false))
                },
            decreases n - k,
        {
            let (_, idx) = keys[k];
            proof {
                lemma_label_weight_step(keys@, ws, ls, true, k as int);
                lemma_label_weight_step(keys@, ws, ls, false, k as int);
                lemma_label_weight_prefix(keys@, ws, ls, true, k + 1);
                lemma_label_weight_prefix(keys@, ws, ls, false, k + 1);
            }
            if set.is_object(idx) {
                fs = fs + set.weight(idx);
                cf = cf + 1;
            } else {
                bg = bg + set.weight(idx);
                cg = cg + 1;
            }
            let e1 = bg + (afs - fs);
            let e2 = fs + (abg - bg);
            let err = if e1 <= e2 {
                e1
            } else {
                e2
            };
            if k == 0 || err < best_err {
                best = k;
                best_err = err;
                pol = cf > cg;
            }
            k = k + 1;
        }
        self.threshold = keys[best].0;
        self.pos_polarity = pol;
        proof {
            assert(sorted_keys_of(keys@, self.feature, *set));
            assert forall|s: Seq<SampleKey>| #[trigger]
                sorted_keys_of(s, self.feature, *set) implies (self.threshold, self.pos_polarity)
                == chosen_cut(s, set.weights(), set.labels()) by {
                lemma_sorted_unique(s, keys@);
            }
        }
    }

    /// One AdaBoost weight update on normalized weights, returning the
    /// classifier's vote. With `err` the classifier's weighted error and
    /// `total` the total weight: when `0 < err < total`, every sample the
    /// classifier gets right is multiplied by `beta = err / (total - err)`
    /// (rounded down) and every other one keeps its weight, after which the
    /// classifier's weighted error is at least half of the total weight (no
    /// better than chance); otherwise the weights stay as they are.
    pub fn update_weights(&self, set: &mut TrainingImages) -> (vote: i64)
        requires
            old(set).wf(),
            old(set).total() <= WEIGHT_ONE,
            self.feature.fits(old(set).spec_width(), old(set).spec_height()),
        ensures
            final(set).wf(),
            final(set).images() == old(set).images(),
            final(set).labels() == old(set).labels(),
            final(set).spec_width() == old(set).spec_width(),
            final(set).spec_height() == old(set).spec_height(),
            vote == vote_for(self.weighted_error(*old(set)), old(set).total()),
            ({
                let err = self.weighted_error(*old(set));
                let total = old(set).total();
                &&& (err == 0 || err >= total) ==> final(set).weights() == old(set).weights()
                &&& (0 < err < total) ==> {
                    &&& forall|k: int|
                        0 <= k < old(set).spec_len() ==> #[trigger] final(set).weights()[k] as int
                            == if self.accepts(&old(set).images()[k]) == old(set).labels()[k] {
                            old(set).weights()[k] * err / (total - err)
                        } else {
                            old(set).weights()[k] as int
                        }
                    &&& self.weighted_error(*final(set)) == err
                    &&& 2 * self.weighted_error(*final(set)) >= final(set).total()
                    &&& final(set).total() > 0
                }
            }),
    {
        let preds = self.predict_all(set);
        let err = mistakes(set, &preds);
        let total = set.total_weight();
        if err == 0 || err >= total {
            return vote_weight(err, total);
        }
        let ghost before = *set;
        set.reweight(&preds, err, total);
        proof {
            assert(self.predictions(*set) =~= self.predictions(before));
            assert(preds@ == self.predictions(before));
            assert(self.weighted_error(*set) == err);
            assert forall|k: int| 0 <= k < before.spec_len() implies #[trigger] set.weights()[k] as int
                == if self.accepts(&before.images()[k]) == before.labels()[k] {
                before.weights()[k] * err / (total - err)
            } else {
                before.weights()[k] as int
            } by {
                assert(preds@[k] == self.accepts(&before.images()[k]));
            }
            assert(set.total() > 0);
        }
        vote_weight(err, total)
    }

    /// The classifier's answer on every sample of the set.
    pub fn predict_all(&self, set: &TrainingImages) -> (r: Vec<bool>)
        requires
            set.wf(),
            self.feature.fits(set.spec_width(), set.spec_height()),
        ensures
            r@ == self.predictions(*set),
    {
        let n = set.len();
        let mut out: Vec<bool> = Vec::new();
        let mut k: usize = 0;
        while k < n
            invariant
                k <= n,
                n == set.spec_len(),
                set.wf(),
                self.feature.fits(set.spec_width(), set.spec_height()),
                out@.len() == k,
                forall|m: int| 0 <= m < k ==> out@[m] == #[trigger] self.accepts(&set.images()[m]),
            decreases n - k,
        {
            let img = set.image(k);
            out.push(self.classify(img));
            k = k + 1;
        }
        assert(out@ =~= self.predictions(*set));
        out
    }

    /// The weight of the samples the classifier gets wrong.
    pub fn error(&self, set: &TrainingImages) -> (e: u64)
        requires
            set.wf(),
            self.feature.fits(set.spec_width(), set.spec_height()),
        ensures
            e == self.weighted_error(*set),
            e <= set.total(),
    {
        let preds = self.predict_all(set);
        mistakes(set, &preds)
    }
}

impl WeakClassifier {
    /// The first classifier of least weighted error.
    pub fn get_best_index(wcs: &Vec<WeakClassifier>, set: &TrainingImages) -> (b: usize)
        requires
            set.wf(),
            wcs@.len() > 0,
            forall|k: int|
                0 <= k < wcs@.len() ==> (#[trigger] wcs@[k]).feature.fits(set.spec_width(), set.spec_height()),
        ensures
            b < wcs@.len(),
            forall|k: int|
                0 <= k < wcs@.len() ==> wcs@[b as int].weighted_error(*set) <= (#[trigger] wcs@[k]).weighted_error(*set),
            forall|k: int|
                0 <= k < b ==> wcs@[b as int].weighted_error(*set) < (#[trigger] wcs@[k]).weighted_error(*set),
    {
        let mut best: usize = 0;
        let mut best_err = wcs[0].error(set);
        let mut k: usize = 1;
        while k < wcs.len()
            invariant
                1 <= k <= wcs@.len(),
                set.wf(),
                forall|m: int|
                    0 <= m < wcs@.len() ==> (#[trigger] wcs@[m]).feature.fits(set.spec_width(), set.spec_height()),
                best < k,
                best_err == wcs@[best as int].weighted_error(*set),
                forall|m: int| 0 <= m < k ==> best_err <= (#[trigger] wcs@[m]).weighted_error(*set),
                forall|m: int| 0 <= m < best ==> best_err < (#[trigger] wcs@[m]).weighted_error(*set),
            decreases wcs@.len() - k,
        {
            let e = wcs[k].error(set);
            if e < best_err {
                best = k;
                best_err = e;
            }
            k = k + 1;
        }
        best
    }

    /// The first weak classifier of least weighted error over the set.
    pub fn get_best(wcs: &Vec<WeakClassifier>, set: &TrainingImages) -> (r: WeakClassifier)
        requires
            set.wf(),
            wcs@.len() > 0,
            forall|k: int|
                0 <= k < wcs@.len() ==> (#[trigger] wcs@[k]).feature.fits(set.spec_width(), set.spec_height()),
        ensures
            exists|b: int|
                0 <= b < wcs@.len() && r == wcs@[b] && (forall|k: int|
                    0 <= k < wcs@.len() ==> r.weighted_error(*set) <= (#[trigger] wcs@[k]).weighted_error(*set))
                    && (forall|k: int|
                    0 <= k < b ==> r.weighted_error(*set) < (#[trigger] wcs@[k]).weighted_error(*set)),
    {
        let b = WeakClassifier::get_best_index(wcs, set);
        wcs[b]
    }

    /// Runs the threshold search of every weak classifier against the set.
    pub fn calculate_thresholds(wcs: &mut Vec<WeakClassifier>, set: &TrainingImages)
        requires
            set.wf(),
            set.spec_len() > 0,
            forall|k: int|
                0 <= k < old(wcs)@.len() ==> (#[trigger] old(wcs)@[k]).feature.fits(set.spec_width(), set.spec_height()),
        ensures
            final(wcs)@.len() == old(wcs)@.len(),
            forall|k: int|
                0 <= k < old(wcs)@.len() ==> (#[trigger] final(wcs)@[k]).feature == old(wcs)@[k].feature
                    && threshold_found(final(wcs)@[k], *set),
    {
        let ghost start = wcs@;
        let mut k: usize = 0;
        while k < wcs.len()
            invariant
                k <= wcs@.len(),
                wcs@.len() == start.len(),
                set.wf(),
                set.spec_len() > 0,
                forall|m: int|
                    0 <= m < start.len() ==> (#[trigger] start[m]).feature.fits(set.spec_width(), set.spec_height()),
                forall|m: int| 0 <= m < start.len() ==> (#[trigger] wcs@[m]).feature == start[m].feature,
                forall|m: int| 0 <= m < k ==> threshold_found(#[trigger] wcs@[m], *set),
            decreases wcs@.len() - k,
        {
            let mut wc = wcs[k];
            wc.calculate_threshold(set);
            wcs.set(k, wc);
            k = k + 1;
        }
    }

    /// Every weak classifier of the feature space of a `wl` by `wh` window,
    /// in enumeration order, before any threshold search.
    pub fn get_all_for(wl: u8, wh: u8) -> (wcs: Vec<WeakClassifier>)
        ensures
            wcs@.len() == all_features(wl as int, wh as int).len(),
            forall|k: int|
                0 <= k < wcs@.len() ==> (#[trigger] wcs@[k]).feature == all_features(wl as int, wh as int)[k]
                    && wcs@[k].threshold == 0 && !wcs@[k].pos_polarity,
            forall|k: int| 0 <= k < wcs@.len() ==> (#[trigger] wcs@[k]).feature.fits(wl as int, wh as int),
    {
        let features = enumerate(wl, wh);
        let mut wcs: Vec<WeakClassifier> = Vec::new();
        let mut k: usize = 0;
        while k < features.len()
            invariant
                k <= features@.len(),
                features@ == all_features(wl as int, wh as int),
                forall|m: int| 0 <= m < features@.len() ==> (#[trigger] features@[m]).fits(wl as int, wh as int),
                wcs@.len() == k,
                forall|m: int|
                    0 <= m < k ==> (#[trigger] wcs@[m]).feature == features@[m] && wcs@[m].threshold == 0
                        && !wcs@[m].pos_polarity,
            decreases features@.len() - k,
        {
            wcs.push(WeakClassifier::new(features[k]));
            k = k + 1;
        }
        wcs
    }

    /// Every weak classifier of the detection window's feature space, in
    /// enumeration order, before any threshold search.
    pub fn get_all() -> (wcs: Vec<WeakClassifier>)
        ensures
            wcs@.len() == all_features(WL as int, WH as int).len(),
            forall|k: int|
                0 <= k < wcs@.len() ==> (#[trigger] wcs@[k]).feature == all_features(WL as int, WH as int)[k]
                    && wcs@[k].threshold == 0 && !wcs@[k].pos_polarity,
            forall|k: int| 0 <= k < wcs@.len() ==> (#[trigger] wcs@[k]).feature.fits(WL as int, WH as int),
    {
        WeakClassifier::get_all_for(WL, WH)
    }
}

/// The weight of the samples whose prediction differs from their label.
pub fn mistakes(set: &TrainingImages, preds: &Vec<bool>) -> (e: u64)
    requires
        set.wf(),
        preds@.len() == set.spec_len(),
    ensures
        e == mistake_total(set.weights(), set.labels(), preds@),
        e <= set.total(),
{
    let n = set.len();
    let ghost ws = set.weights();
    let ghost ls = set.labels();
    let mut e: u64 = 0;
    let mut k: usize = 0;
    while k < n
        invariant
            k <= n,
            n == set.spec_len(),
            set.wf(),
            ws == set.weights(),
            ls == set.labels(),
            preds@.len() == n,
            e == mistake_total(ws.subrange(0, k as int), ls.subrange(0, k as int), preds@.subrange(0, k as int)),
        decreases n - k,
    {
        proof {
            crate::training::lemma_mistakes_bounded(ws.subrange(0, k + 1), ls.subrange(0, k + 1), preds@.subrange(0, k + 1));
            crate::training::lemma_total_bounds(ws, k + 1);
            assert(ws.subrange(0, k + 1).drop_last() =~= ws.subrange(0, k as int));
            assert(ls.subrange(0, k + 1).drop_last() =~= ls.subrange(0, k as int));
            assert(preds@.subrange(0, k + 1).drop_last() =~= preds@.subrange(0, k as int));
        }
        if preds[k] != set.is_object(k) {
            e = e + set.weight(k);
        }
        k = k + 1;
    }
    proof {
        assert(ws.subrange(0, n as int) =~= ws);
        assert(ls.subrange(0, n as int) =~= ls);
        assert(preds@.subrange(0, n as int) =~= preds@);
        crate::training::lemma_mistakes_bounded(ws, ls, preds@);
    }
    e
}

} // verus!
