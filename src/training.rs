use vstd::prelude::*;
use crate::integral_image::{IntegralImage, IntegralImageTrait};

verus! {

/// The fixed-point unit of sample weights: normalized weights sum to at most
/// this value, which stands for a total weight of one.
pub const WEIGHT_ONE: u64 = 0x8000_0000;

/// Upper bound on the total weight of a training set.
pub const MAX_TOTAL_WEIGHT: u64 = 0x8000_0000_0000_0000;

/// Sum of a sequence of weights.
pub open spec fn seq_total(ws: Seq<u64>) -> int
    decreases ws.len(),
{
    if ws.len() == 0 {
        0
    } else {
        seq_total(ws.drop_last()) + ws.last() as int
    }
}

/// Sum of the weights `ws[k]` for which `preds[k]` differs from `labels[k]`.
pub open spec fn mistake_total(ws: Seq<u64>, labels: Seq<bool>, preds: Seq<bool>) -> int
    decreases ws.len(),
{
    if ws.len() == 0 {
        0
    } else {
        mistake_total(ws.drop_last(), labels.drop_last(), preds.drop_last()) + if preds.last()
            != labels.last() {
            ws.last() as int
        } else {
            0
        }
    }
}

/// Number of `true` entries.
pub open spec fn count_true(s: Seq<bool>) -> int
    decreases s.len(),
{
    if s.len() == 0 {
        0
    } else {
        count_true(s.drop_last()) + if s.last() {
            1int
        } else {
            0
        }
    }
}

/// The entries of `s` whose flag in `keep` is set, in order.
pub open spec fn filter_by<A>(s: Seq<A>, keep: Seq<bool>) -> Seq<A>
    decreases s.len(),
{
    if s.len() == 0 {
        seq![]
    } else if keep[0] {
        seq![s[0]] + filter_by(s.drop_first(), keep.drop_first())
    } else {
        filter_by(s.drop_first(), keep.drop_first())
    }
}

/// The weights rescaled to sum to at most `WEIGHT_ONE`: each becomes
/// `w * WEIGHT_ONE / total`, rounded down; all-zero weights stay as they are.
pub open spec fn normalized_weights(ws: Seq<u64>) -> Seq<u64> {
    if seq_total(ws) == 0 {
        ws
    } else {
        Seq::new(ws.len(), |k: int| (ws[k] * WEIGHT_ONE / seq_total(ws)) as u64)
    }
}

/// The starting AdaBoost weight of sample `k`: half of the unit shared by
/// the positives, half by the negatives.
pub open spec fn initial_weight(labels: Seq<bool>, k: int) -> u64 {
    let npos = count_true(labels);
    let nneg = labels.len() - npos;
    if labels[k] {
        (WEIGHT_ONE as int / (2 * npos)) as u64
    } else {
        (WEIGHT_ONE as int / (2 * nneg)) as u64
    }
}

pub proof fn lemma_total_bounds(ws: Seq<u64>, k: int)
    requires
        0 <= k <= ws.len(),
    ensures
        0 <= seq_total(ws.subrange(0, k)) <= seq_total(ws),
    decreases ws.len() - k,
{
    if k < ws.len() {
        lemma_total_bounds(ws, k + 1);
        lemma_total_nonneg(ws.subrange(0, k));
        assert(ws.subrange(0, k + 1).drop_last() =~= ws.subrange(0, k));
        assert(ws.subrange(0, k + 1).last() == ws[k]);
    } else {
        assert(ws.subrange(0, k) =~= ws);
        lemma_total_nonneg(ws);
    }
}

pub proof fn lemma_total_nonneg(ws: Seq<u64>)
    ensures
        seq_total(ws) >= 0,
    decreases ws.len(),
{
    if ws.len() > 0 {
        lemma_total_nonneg(ws.drop_last());
    }
}

/// A sum of mistakes never exceeds the total weight.
pub proof fn lemma_mistakes_bounded(ws: Seq<u64>, labels: Seq<bool>, preds: Seq<bool>)
    ensures
        0 <= mistake_total(ws, labels, preds) <= seq_total(ws),
    decreases ws.len(),
{
    if ws.len() > 0 {
        lemma_mistakes_bounded(ws.drop_last(), labels.drop_last(), preds.drop_last());
    }
}

proof fn lemma_count_bounds(s: Seq<bool>)
    ensures
        0 <= count_true(s) <= s.len(),
    decreases s.len(),
{
    if s.len() > 0 {
        lemma_count_bounds(s.drop_last());
    }
}

proof fn lemma_total_prepend(x: u64, t: Seq<u64>)
    ensures
        seq_total(seq![x] + t) == x + seq_total(t),
    decreases t.len(),
{
    if t.len() > 0 {
        lemma_total_prepend(x, t.drop_last());
        assert((seq![x] + t).drop_last() =~= seq![x] + t.drop_last());
        assert((seq![x] + t).last() == t.last());
    } else {
        assert(seq![x] + t =~= seq![x]);
        assert(seq![x].drop_last() =~= Seq::<u64>::empty());
        assert(seq_total(Seq::<u64>::empty()) == 0);
        assert(seq_total(t) == 0);
    }
}

/// Filtering weights never raises their total.
pub proof fn lemma_filter_total(ws: Seq<u64>, keep: Seq<bool>)
    ensures
        seq_total(filter_by(ws, keep)) <= seq_total(ws),
    decreases ws.len(),
{
    if ws.len() > 0 {
        lemma_filter_total(ws.drop_first(), keep.drop_first());
        lemma_total_prepend(ws[0], ws.drop_first());
        assert(seq![ws[0]] + ws.drop_first() =~= ws);
        if keep[0] {
            lemma_total_prepend(ws[0], filter_by(ws.drop_first(), keep.drop_first()));
        }
    }
}

/// A training set stored as index-aligned vectors: integral images of equal
/// size, their AdaBoost weights, and whether each shows the object.
pub struct TrainingImages {
    images: Vec<IntegralImage>,
    weights: Vec<u64>,
    labels: Vec<bool>,
    width: usize,
    height: usize,
}

impl TrainingImages {
    pub closed spec fn images(&self) -> Seq<IntegralImage> {
        self.images@
    }

    pub closed spec fn weights(&self) -> Seq<u64> {
        self.weights@
    }

    pub closed spec fn labels(&self) -> Seq<bool> {
        self.labels@
    }

    pub closed spec fn spec_width(&self) -> int {
        self.width as int
    }

    pub closed spec fn spec_height(&self) -> int {
        self.height as int
    }

    pub open spec fn spec_len(&self) -> int {
        self.images().len() as int
    }

    pub open spec fn total(&self) -> int {
        seq_total(self.weights())
    }

    pub open spec fn wf(&self) -> bool {
        &&& self.weights().len() == self.spec_len()
        &&& self.labels().len() == self.spec_len()
        &&& forall|k: int|
            0 <= k < self.spec_len() ==> (#[trigger] self.images()[k]).spec_width()
                == self.spec_width() && self.images()[k].spec_height() == self.spec_height()
        &&& self.total() <= MAX_TOTAL_WEIGHT
    }

    /// Builds a training set from `width` by `height` integral images and
    /// their labels, giving every positive sample the weight
    /// `WEIGHT_ONE / (2 * positives)` and every negative one
    /// `WEIGHT_ONE / (2 * negatives)`. `None` when the two vectors differ in
    /// length or an image has another size.
    pub fn from_samples(
        images: Vec<IntegralImage>,
        labels: Vec<bool>,
        width: usize,
        height: usize,
    ) -> (r: Option<TrainingImages>)
        ensures
            r is Some <==> (images@.len() == labels@.len() && forall|k: int|
                0 <= k < images@.len() ==> (#[trigger] images@[k]).spec_width() == width
                    && images@[k].spec_height() == height),
            r matches Some(t) ==> {
                &&& t.wf()
                &&& t.images() == images@
                &&& t.labels() == labels@
                &&& t.spec_width() == width
                &&& t.spec_height() == height
                &&& forall|k: int|
                    0 <= k < labels@.len() ==> #[trigger] t.weights()[k] == initial_weight(
                        labels@,
                        k,
                    )
                &&& t.total() <= WEIGHT_ONE
            },
    {
        if images.len() != labels.len() {
            return None;
        }
        let n = images.len();
        let mut k: usize = 0;
        let mut npos: u64 = 0;
        while k < n
            invariant
                k <= n,
                n == images@.len(),
                n == labels@.len(),
                npos == count_true(labels@.subrange(0, k as int)),
                forall|m: int|
                    0 <= m < k ==> (#[trigger] images@[m]).spec_width() == width
                        && images@[m].spec_height() == height,
            decreases n - k,
        {
            if images[k].width() != width || images[k].height() != height {
                return None;
            }
            proof {
                assert(labels@.subrange(0, k + 1).drop_last() =~= labels@.subrange(0, k as int));
                lemma_count_bounds(labels@.subrange(0, k as int));
            }
            if labels[k] {
                npos = npos + 1;
            }
            k = k + 1;
        }
        proof {
            assert(labels@.subrange(0, n as int) =~= labels@);
            lemma_count_bounds(labels@);
        }
        let nneg: u64 = n as u64 - npos;
        let wp: u64 = if npos > 0 { WEIGHT_ONE / npos / 2 } else { 0 };
        let wn: u64 = if nneg > 0 { WEIGHT_ONE / nneg / 2 } else { 0 };
        proof {
            if npos > 0 {
                vstd::arithmetic::div_mod::lemma_div_denominator(WEIGHT_ONE as int, npos as int, 2);
                assert(npos * 2 == 2 * npos);
            }
            if nneg > 0 {
                vstd::arithmetic::div_mod::lemma_div_denominator(WEIGHT_ONE as int, nneg as int, 2);
                assert(nneg * 2 == 2 * nneg);
            }
            if npos > 0 {
                assert(wp * (2 * npos) <= WEIGHT_ONE) by (nonlinear_arith)
                    requires
                        npos > 0,
                        wp == WEIGHT_ONE as int / (2 * npos),
                ;
            }
            if nneg > 0 {
                assert(wn * (2 * nneg) <= WEIGHT_ONE) by (nonlinear_arith)
                    requires
                        nneg > 0,
                        wn == WEIGHT_ONE as int / (2 * nneg),
                ;
            }
        }
        let mut weights: Vec<u64> = Vec::new();
        let mut k: usize = 0;
        let mut seen_pos: u64 = 0;
        let mut seen_neg: u64 = 0;
        while k < n
            invariant
                k <= n,
                n == labels@.len(),
                npos == count_true(labels@),
                nneg == n - npos,
                wp == (if npos > 0 { WEIGHT_ONE as int / (2 * npos) } else { 0 }),
                wn == (if nneg > 0 { WEIGHT_ONE as int / (2 * nneg) } else { 0 }),
                npos > 0 ==> wp * (2 * npos) <= WEIGHT_ONE,
                nneg > 0 ==> wn * (2 * nneg) <= WEIGHT_ONE,
                weights@.len() == k,
                seen_pos == count_true(labels@.subrange(0, k as int)),
                seen_pos + seen_neg == k,
                seen_pos <= npos,
                seen_neg <= nneg,
                seq_total(weights@) == seen_pos * wp + seen_neg * wn,
                forall|m: int| 0 <= m < k ==> #[trigger] weights@[m] == initial_weight(labels@, m),
            decreases n - k,
        {
            proof {
                assert(labels@.subrange(0, k + 1).drop_last() =~= labels@.subrange(0, k as int));
                lemma_count_bounds(labels@.subrange(0, k + 1));
                assert(labels@.subrange(0, n as int) =~= labels@);
                if k + 1 < n {
                    lemma_count_prefix(labels@, k + 1);
                }
            }
            let ghost before = weights@;
            if labels[k] {
                weights.push(wp);
                seen_pos = seen_pos + 1;
            } else {
                weights.push(wn);
                seen_neg = seen_neg + 1;
            }
            proof {
                assert(weights@.drop_last() =~= before);
                assert((seen_pos - 1) * wp + wp == seen_pos * wp) by (nonlinear_arith);
                assert((seen_neg - 1) * wn + wn == seen_neg * wn) by (nonlinear_arith);
                assert(seen_pos * wp + seen_neg * wn <= WEIGHT_ONE) by (nonlinear_arith)
                    requires
                        seen_pos <= npos,
                        seen_neg <= nneg,
                        npos > 0 ==> wp * (2 * npos) <= WEIGHT_ONE,
                        nneg > 0 ==> wn * (2 * nneg) <= WEIGHT_ONE,
                        npos == 0 ==> seen_pos == 0,
                        nneg == 0 ==> seen_neg == 0,
                ;
            }
            k = k + 1;
        }
        proof {
            assert(seen_pos * wp + seen_neg * wn <= WEIGHT_ONE) by (nonlinear_arith)
                requires
                    seen_pos <= npos,
                    seen_neg <= nneg,
                    npos > 0 ==> wp * (2 * npos) <= WEIGHT_ONE,
                    nneg > 0 ==> wn * (2 * nneg) <= WEIGHT_ONE,
                    npos == 0 ==> seen_pos == 0,
                    nneg == 0 ==> seen_neg == 0,
            ;
        }
        Some(TrainingImages { images, weights, labels, width, height })
    }

    /// Rescales the weights so that they sum to at most `WEIGHT_ONE`:
    /// each weight becomes `w * WEIGHT_ONE / total`, rounded down. A set
    /// whose weights are all zero is left as it is.
    pub fn normalize_weights(&mut self)
        requires
            old(self).wf(),
        ensures
            final(self).wf(),
            final(self).images() == old(self).images(),
            final(self).labels() == old(self).labels(),
            final(self).spec_width() == old(self).spec_width(),
            final(self).spec_height() == old(self).spec_height(),
            final(self).weights().len() == old(self).weights().len(),
            final(self).weights() == normalized_weights(old(self).weights()),
            old(self).total() == 0 ==> final(self).weights() == old(self).weights(),
            old(self).total() > 0 ==> final(self).total() <= WEIGHT_ONE,
            old(self).total() > 0 ==> forall|k: int|
                0 <= k < old(self).spec_len() ==> #[trigger] final(self).weights()[k] as int
                    == old(self).weights()[k] * WEIGHT_ONE / old(self).total(),
    {
        let n = self.weights.len();
        let mut total: u64 = 0;
        let mut k: usize = 0;
        while k < n
            invariant
                k <= n,
                n == self.weights@.len(),
                self.wf(),
                total == seq_total(self.weights@.subrange(0, k as int)),
            decreases n - k,
        {
            proof {
                lemma_total_bounds(self.weights@, k + 1);
                assert(self.weights@.subrange(0, k + 1).drop_last() =~= self.weights@.subrange(0, k as int));
            }
            total = total + self.weights[k];
            k = k + 1;
        }
        proof {
            assert(self.weights@.subrange(0, n as int) =~= self.weights@);
        }
        if total == 0 {
            return;
        }
        let ghost old_ws = self.weights@;
        let ghost imgs = self.images@;
        let ghost ls = self.labels@;
        let ghost (w0, h0) = (self.width, self.height);
        let mut k: usize = 0;
        let mut acc: u64 = 0;
        while k < n
            invariant
                k <= n,
                n == self.weights@.len(),
                n == old_ws.len(),
                total == seq_total(old_ws),
                0 < total <= MAX_TOTAL_WEIGHT,
                self.images@ == imgs,
                self.labels@ == ls,
                self.width == w0,
                self.height == h0,
                self.images@.len() == n,
                self.labels@.len() == n,
                forall|m: int| k <= m < n ==> self.weights@[m] == old_ws[m],
                forall|m: int|
                    0 <= m < k ==> #[trigger] self.weights@[m] as int == old_ws[m] * WEIGHT_ONE
                        / (total as int),
                acc == seq_total(self.weights@.subrange(0, k as int)),
                acc * total <= seq_total(old_ws.subrange(0, k as int)) * WEIGHT_ONE,
                seq_total(old_ws.subrange(0, k as int)) <= total,
            decreases n - k,
        {
            let ghost before = self.weights@;
            proof {
                lemma_total_bounds(old_ws, k + 1);
                assert(old_ws.subrange(0, k + 1).drop_last() =~= old_ws.subrange(0, k as int));
                assert(old_ws[k as int] <= total);
            }
            let w = self.weights[k];
            let scaled: u128 = (w as u128) * (WEIGHT_ONE as u128) / (total as u128);
            proof {
                assert(scaled <= WEIGHT_ONE) by (nonlinear_arith)
                    requires
                        scaled == (w as int) * (WEIGHT_ONE as int) / (total as int),
                        w <= total,
                        total > 0,
                ;
                assert(scaled * total <= w * WEIGHT_ONE) by (nonlinear_arith)
                    requires
                        scaled == (w as int) * (WEIGHT_ONE as int) / (total as int),
                        total > 0,
                ;
                assert((acc + scaled) * total <= (seq_total(old_ws.subrange(0, k as int)) + w)
                    * WEIGHT_ONE) by (nonlinear_arith)
                    requires
                        acc * total <= seq_total(old_ws.subrange(0, k as int)) * WEIGHT_ONE,
                        scaled * total <= w * WEIGHT_ONE,
                ;
                assert(acc + scaled <= WEIGHT_ONE) by (nonlinear_arith)
                    requires
                        (acc + scaled) * total <= (seq_total(old_ws.subrange(0, k as int)) + w)
                            * WEIGHT_ONE,
                        seq_total(old_ws.subrange(0, k as int)) + w <= total,
                        total > 0,
                ;
            }
            self.weights.set(k, scaled as u64);
            proof {
                assert(self.weights@.subrange(0, k + 1).drop_last() =~= before.subrange(0, k as int));
            }
            acc = acc + scaled as u64;
            k = k + 1;
        }
        proof {
            assert(self.weights@.subrange(0, n as int) =~= self.weights@);
            assert(old_ws.subrange(0, n as int) =~= old_ws);
            assert(self.weights@ =~= normalized_weights(old_ws));
            assert(acc <= WEIGHT_ONE) by (nonlinear_arith)
                requires
                    acc * total <= total * WEIGHT_ONE,
                    total > 0,
            ;
        }
    }

    /// The AdaBoost update with `beta = err / (total - err)`: a sample whose
    /// prediction matches its label gets `w * err / (total - err)`, rounded
    /// down; a misclassified one keeps its weight. The misclassified weight
    /// is then at least half of the new total.
    pub fn reweight(&mut self, preds: &Vec<bool>, err: u64, total: u64)
        requires
            old(self).wf(),
            preds@.len() == old(self).spec_len(),
            total == old(self).total(),
            total <= WEIGHT_ONE,
            err == mistake_total(old(self).weights(), old(self).labels(), preds@),
            0 < err < total,
        ensures
            final(self).wf(),
            final(self).images() == old(self).images(),
            final(self).labels() == old(self).labels(),
            final(self).spec_width() == old(self).spec_width(),
            final(self).spec_height() == old(self).spec_height(),
            final(self).weights().len() == old(self).weights().len(),
            forall|k: int|
                0 <= k < old(self).spec_len() ==> #[trigger] final(self).weights()[k] as int == if preds@[k]
                    == old(self).labels()[k] {
                    old(self).weights()[k] * err / (total - err)
                } else {
                    old(self).weights()[k] as int
                },
            mistake_total(final(self).weights(), final(self).labels(), preds@) == err,
            final(self).total() <= 2 * err,
            final(self).total() >= err,
    {
        let ghost old_ws = self.weights@;
        let ghost ls = self.labels@;
        let ghost imgs = self.images@;
        let ghost (w0, h0) = (self.width, self.height);
        let n = self.weights.len();
        proof {
            lemma_mistakes_bounded(old_ws, ls, preds@);
            let e = Seq::<u64>::empty();
            assert(old_ws.subrange(0, 0) =~= e);
            assert(self.weights@.subrange(0, 0) =~= e);
            assert(seq_total(e) == 0);
            assert(mistake_total(e, ls.subrange(0, 0), preds@.subrange(0, 0)) == 0);
        }
        let rest = total - err;
        let mut k: usize = 0;
        let mut acc: u64 = 0;
        while k < n
            invariant
                k <= n,
                n == self.weights@.len(),
                n == old_ws.len(),
                n == ls.len(),
                n == preds@.len(),
                ls == self.labels@,
                self.images@ == imgs,
                self.width == w0,
                self.height == h0,
                self.images@.len() == n,
                total == seq_total(old_ws),
                total <= WEIGHT_ONE,
                0 < err < total,
                rest == total - err,
                err == mistake_total(old_ws, ls, preds@),
                forall|m: int| k <= m < n ==> self.weights@[m] == old_ws[m],
                forall|m: int|
                    0 <= m < k ==> #[trigger] self.weights@[m] as int == if preds@[m] == ls[m] {
                        old_ws[m] * err / (rest as int)
                    } else {
                        old_ws[m] as int
                    },
                ({
                    let pw = old_ws.subrange(0, k as int);
                    let pm = mistake_total(pw, ls.subrange(0, k as int), preds@.subrange(0, k as int));
                    &&& acc == seq_total(self.weights@.subrange(0, k as int))
                    &&& (acc - pm) * rest <= (seq_total(pw) - pm) * err
                    &&& acc >= pm
                    &&& mistake_total(self.weights@.subrange(0, k as int), ls.subrange(0, k as int), preds@.subrange(0, k as int)) == pm
                    &&& 0 <= pm <= seq_total(pw) <= total
                }),
            decreases n - k,
        {
            let ghost before = self.weights@;
            proof {
                lemma_total_bounds(old_ws, k + 1);
                lemma_mistakes_bounded(old_ws.subrange(0, k + 1), ls.subrange(0, k + 1), preds@.subrange(0, k + 1));
                assert(old_ws.subrange(0, k + 1).drop_last() =~= old_ws.subrange(0, k as int));
                assert(ls.subrange(0, k + 1).drop_last() =~= ls.subrange(0, k as int));
                assert(preds@.subrange(0, k + 1).drop_last() =~= preds@.subrange(0, k as int));
            }
            let w = self.weights[k];
            let nw: u64 = if preds[k] == self.labels[k] {
                proof {
                    assert(w * err <= WEIGHT_ONE * WEIGHT_ONE) by (nonlinear_arith)
                        requires
                            w <= WEIGHT_ONE,
                            err <= WEIGHT_ONE,
                    ;
                }
                w * err / rest
            } else {
                w
            };
            proof {
                let pw = old_ws.subrange(0, k as int);
                let pm = mistake_total(pw, ls.subrange(0, k as int), preds@.subrange(0, k as int));
                if preds@[k as int] == ls[k as int] {
                    assert(nw * rest <= w * err) by (nonlinear_arith)
                        requires
                            nw == (w as int) * (err as int) / (rest as int),
                            rest > 0,
                    ;
                    assert((acc + nw - pm) * rest <= (seq_total(pw) + w - pm) * err) by (nonlinear_arith)
                        requires
                            (acc - pm) * rest <= (seq_total(pw) - pm) * err,
                            nw * rest <= w * err,
                    ;
                    assert(nw <= w * err) by (nonlinear_arith)
                        requires
                            nw * rest <= w * err,
                            rest >= 1,
                    ;
                    assert(w * err <= WEIGHT_ONE * WEIGHT_ONE) by (nonlinear_arith)
                        requires
                            w <= WEIGHT_ONE,
                            err <= WEIGHT_ONE,
                    ;
                } else {
                    assert((acc + nw - (pm + w)) * rest <= (seq_total(pw) + w - (pm + w)) * err) by (nonlinear_arith)
                        requires
                            (acc - pm) * rest <= (seq_total(pw) - pm) * err,
                            nw == w,
                    ;
                }
                assert(acc + nw <= 2 * WEIGHT_ONE * WEIGHT_ONE) by (nonlinear_arith)
                    requires
                        acc <= seq_total(self.weights@.subrange(0, k as int)),
                        acc == seq_total(self.weights@.subrange(0, k as int)),
                        (acc - pm) * rest <= (seq_total(pw) - pm) * err,
                        rest >= 1,
                        0 <= pm <= seq_total(pw) <= WEIGHT_ONE,
                        err <= WEIGHT_ONE,
                        nw <= WEIGHT_ONE * WEIGHT_ONE,
                ;
            }
            self.weights.set(k, nw);
            proof {
                assert(self.weights@.subrange(0, k + 1).drop_last() =~= before.subrange(0, k as int));
            }
            acc = acc + nw;
            k = k + 1;
        }
        proof {
            assert(self.weights@.subrange(0, n as int) =~= self.weights@);
            assert(old_ws.subrange(0, n as int) =~= old_ws);
            assert(ls.subrange(0, n as int) =~= ls);
            assert(preds@.subrange(0, n as int) =~= preds@);
            assert(acc - err <= err) by (nonlinear_arith)
                requires
                    (acc - err) * rest <= (total - err) * err,
                    rest == total - err,
                    rest > 0,
            ;
        }
    }

    /// Keeps the samples whose flag in `keep` is set, in order, with their
    /// weights and labels.
    pub fn retain(&mut self, keep: &Vec<bool>)
        requires
            old(self).wf(),
            keep@.len() == old(self).spec_len(),
        ensures
            final(self).wf(),
            final(self).images() == filter_by(old(self).images(), keep@),
            final(self).weights() == filter_by(old(self).weights(), keep@),
            final(self).labels() == filter_by(old(self).labels(), keep@),
            final(self).spec_width() == old(self).spec_width(),
            final(self).spec_height() == old(self).spec_height(),
    {
        let ghost oi = self.images@;
        let ghost ow = self.weights@;
        let ghost ol = self.labels@;
        let ghost kp = keep@;
        let n = self.images.len();
        let mut k: usize = n;
        proof {
            assert(oi.subrange(0, n as int) =~= oi);
            assert(ow.subrange(0, n as int) =~= ow);
            assert(ol.subrange(0, n as int) =~= ol);
            assert(oi.subrange(n as int, n as int) =~= Seq::<IntegralImage>::empty());
            assert(ow.subrange(n as int, n as int) =~= Seq::<u64>::empty());
            assert(ol.subrange(n as int, n as int) =~= Seq::<bool>::empty());
            assert(self.images@ =~= oi.subrange(0, n as int) + filter_by(oi.subrange(n as int, n as int), kp.subrange(n as int, n as int)));
            assert(self.weights@ =~= ow.subrange(0, n as int) + filter_by(ow.subrange(n as int, n as int), kp.subrange(n as int, n as int)));
            assert(self.labels@ =~= ol.subrange(0, n as int) + filter_by(ol.subrange(n as int, n as int), kp.subrange(n as int, n as int)));
        }
        while k > 0
            invariant
                k <= n,
                n == oi.len(),
                n == ow.len(),
                n == ol.len(),
                n == kp.len(),
                kp == keep@,
                self.width == old(self).width,
                self.height == old(self).height,
                forall|m: int| 0 <= m < n ==> (#[trigger] oi[m]).spec_width() == self.width && oi[m].spec_height() == self.height,
                self.images@ == oi.subrange(0, k as int) + filter_by(oi.subrange(k as int, n as int), kp.subrange(k as int, n as int)),
                self.weights@ == ow.subrange(0, k as int) + filter_by(ow.subrange(k as int, n as int), kp.subrange(k as int, n as int)),
                self.labels@ == ol.subrange(0, k as int) + filter_by(ol.subrange(k as int, n as int), kp.subrange(k as int, n as int)),
                forall|m: int|
                    0 <= m < self.images@.len() ==> (#[trigger] self.images@[m]).spec_width() == self.width
                        && self.images@[m].spec_height() == self.height,
            decreases k,
        {
            let j = k - 1;
            proof {
                assert(oi.subrange(j as int, n as int).drop_first() =~= oi.subrange(k as int, n as int));
                assert(ow.subrange(j as int, n as int).drop_first() =~= ow.subrange(k as int, n as int));
                assert(ol.subrange(j as int, n as int).drop_first() =~= ol.subrange(k as int, n as int));
                assert(kp.subrange(j as int, n as int).drop_first() =~= kp.subrange(k as int, n as int));
                assert(oi.subrange(j as int, n as int)[0] == oi[j as int]);
            }
            if !keep[j] {
                self.images.remove(j);
                self.weights.remove(j);
                self.labels.remove(j);
                proof {
                    assert(self.images@ =~= oi.subrange(0, j as int) + filter_by(oi.subrange(j as int, n as int), kp.subrange(j as int, n as int)));
                    assert(self.weights@ =~= ow.subrange(0, j as int) + filter_by(ow.subrange(j as int, n as int), kp.subrange(j as int, n as int)));
                    assert(self.labels@ =~= ol.subrange(0, j as int) + filter_by(ol.subrange(j as int, n as int), kp.subrange(j as int, n as int)));
                }
            } else {
                proof {
                    assert(self.images@ =~= oi.subrange(0, j as int) + filter_by(oi.subrange(j as int, n as int), kp.subrange(j as int, n as int)));
                    assert(self.weights@ =~= ow.subrange(0, j as int) + filter_by(ow.subrange(j as int, n as int), kp.subrange(j as int, n as int)));
                    assert(self.labels@ =~= ol.subrange(0, j as int) + filter_by(ol.subrange(j as int, n as int), kp.subrange(j as int, n as int)));
                }
            }
            k = j;
        }
        proof {
            assert(oi.subrange(0, n as int) =~= oi);
            assert(ow.subrange(0, n as int) =~= ow);
            assert(ol.subrange(0, n as int) =~= ol);
            assert(kp.subrange(0, n as int) =~= kp);
            assert(self.images@ =~= filter_by(oi, kp));
            assert(self.weights@ =~= filter_by(ow, kp));
            assert(self.labels@ =~= filter_by(ol, kp));
            lemma_filter_total(ow, kp);
            lemma_filter_same_len(oi, ow, kp);
            lemma_filter_same_len(oi, ol, kp);
        }
    }

    /// The sum of all weights.
    pub fn total_weight(&self) -> (t: u64)
        requires
            self.wf(),
        ensures
            t == self.total(),
    {
        let n = self.weights.len();
        let mut total: u64 = 0;
        let mut k: usize = 0;
        while k < n
            invariant
                k <= n,
                n == self.weights@.len(),
                self.wf(),
                total == seq_total(self.weights@.subrange(0, k as int)),
            decreases n - k,
        {
            proof {
                lemma_total_bounds(self.weights@, k + 1);
                assert(self.weights@.subrange(0, k + 1).drop_last() =~= self.weights@.subrange(0, k as int));
            }
            total = total + self.weights[k];
            k = k + 1;
        }
        proof {
            assert(self.weights@.subrange(0, n as int) =~= self.weights@);
        }
        total
    }

    /// The number of samples.
    pub fn len(&self) -> (n: usize)
        requires
            self.wf(),
        ensures
            n == self.spec_len(),
    {
        self.images.len()
    }

    pub fn image(&self, k: usize) -> (r: &IntegralImage)
        requires
            self.wf(),
            k < self.spec_len(),
        ensures
            *r == self.images()[k as int],
    {
        &self.images[k]
    }

    pub fn weight(&self, k: usize) -> (r: u64)
        requires
            self.wf(),
            k < self.spec_len(),
        ensures
            r == self.weights()[k as int],
    {
        self.weights[k]
    }

    pub fn is_object(&self, k: usize) -> (r: bool)
        requires
            self.wf(),
            k < self.spec_len(),
        ensures
            r == self.labels()[k as int],
    {
        self.labels[k]
    }

    pub fn width(&self) -> (r: usize)
        ensures
            r == self.spec_width(),
    {
        self.width
    }

    pub fn height(&self) -> (r: usize)
        ensures
            r == self.spec_height(),
    {
        self.height
    }
}

proof fn lemma_filter_same_len<A, B>(a: Seq<A>, b: Seq<B>, keep: Seq<bool>)
    requires
        a.len() == b.len(),
    ensures
        filter_by(a, keep).len() == filter_by(b, keep).len(),
    decreases a.len(),
{
    if a.len() > 0 {
        lemma_filter_same_len(a.drop_first(), b.drop_first(), keep.drop_first());
    }
}

/// `(x, y)` stands at some kept position `k` of `a` and `b`.
pub open spec fn kept_pair<A, B>(a: Seq<A>, b: Seq<B>, keep: Seq<bool>, x: A, y: B) -> bool {
    exists|k: int| 0 <= k < a.len() && keep[k] && #[trigger] a[k] == x && b[k] == y
}

/// `(x, y)` stands at some position `j` of `fa` and `fb`.
pub open spec fn pair_at<A, B>(fa: Seq<A>, fb: Seq<B>, x: A, y: B) -> bool {
    exists|j: int| 0 <= j < fa.len() && #[trigger] fa[j] == x && fb[j] == y
}

/// Filtering two sequences of one length by the same flags keeps their
/// elements paired: each pair that remains was a kept pair, and each kept
/// pair remains.
pub proof fn lemma_filter_pairs<A, B>(a: Seq<A>, b: Seq<B>, keep: Seq<bool>)
    requires
        a.len() == b.len(),
        keep.len() == a.len(),
    ensures
        filter_by(a, keep).len() == filter_by(b, keep).len(),
        forall|j: int|
            0 <= j < filter_by(a, keep).len() ==> kept_pair(a, b, keep, #[trigger] filter_by(a, keep)[j], filter_by(b, keep)[j]),
        forall|k: int| 0 <= k < a.len() && #[trigger] keep[k] ==> pair_at(filter_by(a, keep), filter_by(b, keep), a[k], b[k]),
    decreases a.len(),
{
    lemma_filter_same_len(a, b, keep);
    if a.len() > 0 {
        let (a1, b1, k1) = (a.drop_first(), b.drop_first(), keep.drop_first());
        lemma_filter_pairs(a1, b1, k1);
        let (fa, fb) = (filter_by(a, keep), filter_by(b, keep));
        let (ga, gb) = (filter_by(a1, k1), filter_by(b1, k1));
        let off: int = if keep[0] { 1 } else { 0 };
        assert forall|j: int| 0 <= j < fa.len() implies kept_pair(a, b, keep, #[trigger] fa[j], fb[j]) by {
            if keep[0] && j == 0 {
                assert(a[0] == fa[j] && b[0] == fb[j]);
            } else {
                assert(fa[j] == ga[j - off] && fb[j] == gb[j - off]);
                assert(kept_pair(a1, b1, k1, ga[j - off], gb[j - off]));
                let k = choose|k: int| 0 <= k < a1.len() && k1[k] && #[trigger] a1[k] == ga[j - off] && b1[k] == gb[j - off];
                assert(a[k + 1] == fa[j] && b[k + 1] == fb[j] && keep[k + 1]);
            }
        }
        assert forall|k: int| 0 <= k < a.len() && #[trigger] keep[k] implies pair_at(fa, fb, a[k], b[k]) by {
            if k == 0 {
                assert(fa[0] == a[0] && fb[0] == b[0]);
            } else {
                assert(k1[k - 1] && a1[k - 1] == a[k] && b1[k - 1] == b[k]);
                assert(pair_at(ga, gb, a1[k - 1], b1[k - 1]));
                let j = choose|j: int| 0 <= j < ga.len() && #[trigger] ga[j] == a1[k - 1] && gb[j] == b1[k - 1];
                assert(fa[j + off] == a[k] && fb[j + off] == b[k]);
            }
        }
    }
}

proof fn lemma_count_prefix(s: Seq<bool>, k: int)
    requires
        0 <= k <= s.len(),
    ensures
        count_true(s.subrange(0, k)) <= count_true(s),
        k - count_true(s.subrange(0, k)) <= s.len() - count_true(s),
    decreases s.len() - k,
{
    if k < s.len() {
        lemma_count_prefix(s, k + 1);
        assert(s.subrange(0, k + 1).drop_last() =~= s.subrange(0, k));
    } else {
        assert(s.subrange(0, k) =~= s);
    }
}

} // verus!
