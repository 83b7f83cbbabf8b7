use vstd::prelude::*;
use crate::cascade::{count_answers, count_labels};
use crate::constants::{MAX_FALSE_POS_PER_MILLE, MAX_STAGE_SIZE};
use crate::integral_image::IntegralImageTrait;
use crate::training::{normalized_weights, TrainingImages, WEIGHT_ONE};
use crate::weak_classifier::{threshold_found, vote_for};
use crate::weak_classifier::WeakClassifier;

verus! {

/// A weighted-majority ensemble of weak classifiers; `weights[i]` is the
/// vote of `wcs[i]`.
#[derive(Debug, Clone)]
pub struct StrongClassifier {
    pub wcs: Vec<WeakClassifier>,
    pub weights: Vec<i64>,
}

/// Sum of the votes among the first `n` members whose answer on the sample
/// is `answer`.
pub open spec fn vote_sum<I: IntegralImageTrait>(
    wcs: Seq<WeakClassifier>,
    weights: Seq<i64>,
    ii: &I,
    n: int,
    answer: bool,
) -> int
    decreases n,
{
    if n <= 0 {
        0
    } else {
        vote_sum(wcs, weights, ii, n - 1, answer) + if wcs[n - 1].accepts(ii) == answer {
            weights[n - 1] as int
        } else {
            0
        }
    }
}

proof fn lemma_vote_sum_bounds<I: IntegralImageTrait>(
    wcs: Seq<WeakClassifier>,
    weights: Seq<i64>,
    ii: &I,
    n: int,
    answer: bool,
)
    requires
        0 <= n,
    ensures
        -n * 0x8000_0000_0000_0000 <= vote_sum(wcs, weights, ii, n, answer) <= n
            * 0x8000_0000_0000_0000,
    decreases n,
{
    if n > 0 {
        lemma_vote_sum_bounds(wcs, weights, ii, n - 1, answer);
    }
}

/// Two samples on which every member answers alike get the same votes.
pub proof fn lemma_same_answers_same_votes<I: IntegralImageTrait, J: IntegralImageTrait>(
    wcs: Seq<WeakClassifier>,
    weights: Seq<i64>,
    a: &I,
    b: &J,
    n: int,
    answer: bool,
)
    requires
        0 <= n,
        forall|i: int| 0 <= i < n ==> (#[trigger] wcs[i]).accepts(a) == wcs[i].accepts(b),
    ensures
        vote_sum(wcs, weights, a, n, answer) == vote_sum(wcs, weights, b, n, answer),
    decreases n,
{
    if n > 0 {
        lemma_same_answers_same_votes(wcs, weights, a, b, n - 1, answer);
        assert(wcs[n - 1].accepts(a) == wcs[n - 1].accepts(b));
    }
}

/// Every classifier of `wcs` has the feature of some classifier of `pool`.
pub open spec fn drawn_from(wcs: Seq<WeakClassifier>, pool: Seq<WeakClassifier>) -> bool {
    forall|i: int|
        0 <= i < wcs.len() ==> exists|k: int|
            0 <= k < pool.len() && (#[trigger] wcs[i]).feature == pool[k].feature
}

/// `wc` is the first classifier of `wcs` of least weighted error on `set`.
pub open spec fn first_best(wc: WeakClassifier, wcs: Seq<WeakClassifier>, set: TrainingImages) -> bool {
    exists|b: int|
        0 <= b < wcs.len() && wc == wcs[b] && (forall|k: int|
            0 <= k < wcs.len() ==> wc.weighted_error(set) <= (#[trigger] wcs[k]).weighted_error(set))
            && (forall|k: int| 0 <= k < b ==> wc.weighted_error(set) < (#[trigger] wcs[k]).weighted_error(set))
}

/// One boosting round on `mid`, the set after normalization: every
/// classifier of the pool holds the result of its threshold search on
/// `mid`, `wc` is the first of least weighted error, `vote` is its vote and
/// the final weights are `mid`'s after the update by `wc`.
pub open spec fn boosting_round(
    old_set: TrainingImages,
    mid: TrainingImages,
    new_set: TrainingImages,
    pool: Seq<WeakClassifier>,
    wc: WeakClassifier,
    vote: i64,
) -> bool {
    let err = wc.weighted_error(mid);
    let total = mid.total();
    &&& mid.wf()
    &&& mid.images() == old_set.images()
    &&& mid.labels() == old_set.labels()
    &&& mid.spec_width() == old_set.spec_width()
    &&& mid.spec_height() == old_set.spec_height()
    &&& mid.weights() == normalized_weights(old_set.weights())
    &&& forall|k: int| 0 <= k < pool.len() ==> threshold_found(#[trigger] pool[k], mid)
    &&& first_best(wc, pool, mid)
    &&& vote == vote_for(err, total)
    &&& new_set.images() == old_set.images()
    &&& new_set.labels() == old_set.labels()
    &&& ((err == 0 || err >= total) ==> new_set.weights() == mid.weights())
    &&& ((0 < err < total) ==> forall|k: int|
        0 <= k < mid.spec_len() ==> #[trigger] new_set.weights()[k] as int == if wc.accepts(
            &mid.images()[k],
        ) == mid.labels()[k] {
            mid.weights()[k] * err / (total - err)
        } else {
            mid.weights()[k] as int
        })
}

/// The rounds that built `wcs` and `weights`: round `t` turns `sets[t]`
/// into `sets[t + 1]` through the normalized set `mids[t]`, leaving the pool
/// as `pools[t + 1]`, and picks `wcs[t]` with vote `weights[t]`.
pub open spec fn boosting_history(
    sets: Seq<TrainingImages>,
    mids: Seq<TrainingImages>,
    pools: Seq<Seq<WeakClassifier>>,
    wcs: Seq<WeakClassifier>,
    weights: Seq<i64>,
) -> bool {
    &&& sets.len() == wcs.len() + 1
    &&& mids.len() == wcs.len()
    &&& pools.len() == wcs.len() + 1
    &&& weights.len() == wcs.len()
    &&& forall|t: int|
        0 <= t < wcs.len() ==> boosting_round(
            sets[t],
            #[trigger] mids[t],
            sets[t + 1],
            pools[t + 1],
            wcs[t],
            weights[t],
        )
}

/// Round `t` was degenerate: its classifier erred on no weight, or on all of
/// it.
pub open spec fn degenerate_round(mids: Seq<TrainingImages>, wcs: Seq<WeakClassifier>, t: int) -> bool {
    wcs[t].weighted_error(mids[t]) == 0 || wcs[t].weighted_error(mids[t]) >= mids[t].total()
}

/// The classifier accepts at most `per_mille` thousandths of the negatives
/// of the set.
pub open spec fn stage_false_positives_within(sc: StrongClassifier, set: TrainingImages, per_mille: int) -> bool {
    count_answers(set.labels(), stage_answers(sc, set), false, true) * 1000 <= per_mille
        * count_labels(set.labels(), false)
}

/// `sc` is what boosting makes of `before` and the pool: a chain of
/// boosting rounds, none degenerate but maybe the last, ending in `after`
/// and `pool_after`. With a size `n` the chain has `n` rounds unless the
/// last was degenerate; without one it stops at the first round after which
/// the stage's false positive rate is at most `MAX_FALSE_POS_PER_MILLE`
/// thousandths, after a degenerate round, or after `MAX_STAGE_SIZE` rounds.
pub open spec fn stage_trained(
    before: TrainingImages,
    after: TrainingImages,
    pool_before: Seq<WeakClassifier>,
    pool_after: Seq<WeakClassifier>,
    sc: StrongClassifier,
    num_wcs: Option<usize>,
) -> bool {
    exists|sets: Seq<TrainingImages>, mids: Seq<TrainingImages>, pools: Seq<Seq<WeakClassifier>>|
        {
            let n = sc.wcs@.len() as int;
            &&& #[trigger] boosting_history(sets, mids, pools, sc.wcs@, sc.weights@)
            &&& sets[0] == before
            &&& sets[n] == after
            &&& pools[0] == pool_before
            &&& pools[n] == pool_after
            &&& 1 <= n
            &&& forall|t: int| 0 <= t < n - 1 ==> !#[trigger] degenerate_round(mids, sc.wcs@, t)
            &&& match num_wcs {
                Some(m) => n <= m && (n == m || degenerate_round(mids, sc.wcs@, n - 1)),
                None => n <= MAX_STAGE_SIZE && (n == MAX_STAGE_SIZE || degenerate_round(
                    mids,
                    sc.wcs@,
                    n - 1,
                ) || stage_false_positives_within(sc, before, MAX_FALSE_POS_PER_MILLE as int)),
            }
        }
}

/// One AdaBoost round: normalizes the sample weights, runs the threshold
/// search of every classifier of the pool, takes the first one of least
/// weighted error, updates the sample weights with it and returns it with
/// its vote, its weighted error and the total weight it was measured on.
pub fn boost_round(all_wcs: &mut Vec<WeakClassifier>, set: &mut TrainingImages) -> (r: (WeakClassifier, i64, u64, u64))
    requires
        old(set).wf(),
        old(set).spec_len() > 0,
        old(all_wcs)@.len() > 0,
        forall|k: int|
            0 <= k < old(all_wcs)@.len() ==> (#[trigger] old(all_wcs)@[k]).feature.fits(
                old(set).spec_width(),
                old(set).spec_height(),
            ),
    ensures
        final(set).wf(),
        final(set).images() == old(set).images(),
        final(set).labels() == old(set).labels(),
        final(set).spec_width() == old(set).spec_width(),
        final(set).spec_height() == old(set).spec_height(),
        final(all_wcs)@.len() == old(all_wcs)@.len(),
        forall|k: int|
            0 <= k < old(all_wcs)@.len() ==> (#[trigger] final(all_wcs)@[k]).feature
                == old(all_wcs)@[k].feature,
        exists|mid: TrainingImages|
            {
                &&& boosting_round(*old(set), mid, *final(set), final(all_wcs)@, r.0, r.1)
                &&& r.2 == r.0.weighted_error(mid)
                &&& r.3 == mid.total()
            },
{
    let ghost before = *set;
    proof {
        crate::training::lemma_total_nonneg(set.weights());
    }
    set.normalize_weights();
    let ghost mid = *set;
    proof {
        assert(set.total() <= WEIGHT_ONE);
    }
    WeakClassifier::calculate_thresholds(all_wcs, set);
    let wc = WeakClassifier::get_best(all_wcs, set);
    let err = wc.error(set);
    let total = set.total_weight();
    let vote = wc.update_weights(set);
    proof {
        assert(boosting_round(before, mid, *set, all_wcs@, wc, vote));
    }
    (wc, vote, err, total)
}

impl StrongClassifier {
    pub open spec fn wf(&self) -> bool {
        self.wcs@.len() == self.weights@.len()
    }

    /// Every member's feature can be evaluated on `ii`.
    pub open spec fn admitted_by<I: IntegralImageTrait>(&self, ii: &I) -> bool {
        forall|i: int| 0 <= i < self.wcs@.len() ==> (#[trigger] self.wcs@[i]).feature.admitted_by(ii)
    }

    /// Total vote of the members that accept the sample.
    pub open spec fn votes_for<I: IntegralImageTrait>(&self, ii: &I) -> int {
        vote_sum(self.wcs@, self.weights@, ii, self.wcs@.len() as int, true)
    }

    /// Total vote of the members that reject the sample.
    pub open spec fn votes_against<I: IntegralImageTrait>(&self, ii: &I) -> int {
        vote_sum(self.wcs@, self.weights@, ii, self.wcs@.len() as int, false)
    }

    /// The weighted-majority rule: the votes of the accepting members reach
    /// half of all votes.
    pub open spec fn accepts<I: IntegralImageTrait>(&self, ii: &I) -> bool {
        2 * self.votes_for(ii) >= self.votes_for(ii) + self.votes_against(ii)
    }

    /// Classifies a sample by weighted majority: accepted when the votes of
    /// the members that accept it are at least half of all votes.
    pub fn classify<I: IntegralImageTrait>(&self, ii: &I) -> (r: bool)
        requires
            self.wf(),
            self.admitted_by(ii),
        ensures
            r == self.accepts(ii),
    {
        let n = self.wcs.len();
        let mut yes: i128 = 0;
        let mut no: i128 = 0;
        let mut i: usize = 0;
        while i < n
            invariant
                i <= n,
                n == self.wcs@.len(),
                self.wf(),
                self.admitted_by(ii),
                yes == vote_sum(self.wcs@, self.weights@, ii, i as int, true),
                no == vote_sum(self.wcs@, self.weights@, ii, i as int, false),
            decreases n - i,
        {
            proof {
                lemma_vote_sum_bounds(self.wcs@, self.weights@, ii, i as int, true);
                lemma_vote_sum_bounds(self.wcs@, self.weights@, ii, i as int, false);
                assert(i * 0x8000_0000_0000_0000 < 0x7fff_ffff_ffff_ffff_8000_0000_0000_0000)
                    by (nonlinear_arith)
                    requires
                        i < 0xffff_ffff_ffff_ffff,
                ;
            }
            if self.wcs[i].classify(ii) {
                yes = yes + self.weights[i] as i128;
            } else {
                no = no + self.weights[i] as i128;
            }
            i = i + 1;
        }
        yes >= no
    }

    /// Builds a strong classifier by boosting over the pool `all_wcs`. Each
    /// round normalizes the sample weights, runs the threshold search of
    /// every classifier of the pool, takes the first one of least weighted
    /// error, updates the sample weights with it and records its vote.
    /// Rounds stop after `num_wcs` classifiers when it is given; otherwise
    /// once the stage's false positive rate on the set is at most
    /// `MAX_FALSE_POS_PER_MILLE` thousandths, or after `MAX_STAGE_SIZE`
    /// rounds. A round whose classifier makes no weighted mistake, or only
    /// mistakes, ends the stage early.
    pub fn build(
        all_wcs: &mut Vec<WeakClassifier>,
        set: &mut TrainingImages,
        num_wcs: Option<usize>,
    ) -> (sc: StrongClassifier)
        requires
            old(set).wf(),
            old(set).spec_len() > 0,
            old(all_wcs)@.len() > 0,
            forall|k: int|
                0 <= k < old(all_wcs)@.len() ==> (#[trigger] old(all_wcs)@[k]).feature.fits(
                    old(set).spec_width(),
                    old(set).spec_height(),
                ),
            num_wcs matches Some(n) ==> n > 0,
        ensures
            final(set).wf(),
            final(set).images() == old(set).images(),
            final(set).labels() == old(set).labels(),
            final(set).spec_width() == old(set).spec_width(),
            final(set).spec_height() == old(set).spec_height(),
            final(all_wcs)@.len() == old(all_wcs)@.len(),
            forall|k: int|
                0 <= k < old(all_wcs)@.len() ==> (#[trigger] final(all_wcs)@[k]).feature
                    == old(all_wcs)@[k].feature,
            sc.wf(),
            1 <= sc.wcs@.len(),
            num_wcs matches Some(n) ==> sc.wcs@.len() <= n,
            num_wcs is None ==> sc.wcs@.len() <= MAX_STAGE_SIZE,
            drawn_from(sc.wcs@, old(all_wcs)@),
            stage_trained(*old(set), *final(set), old(all_wcs)@, final(all_wcs)@, sc, num_wcs),
    {
        let limit: usize = match num_wcs {
            Some(n) => n,
            None => MAX_STAGE_SIZE,
        };
        let ghost pool = all_wcs@;
        let ghost (w0, h0) = (set.spec_width(), set.spec_height());
        let ghost imgs = set.images();
        let ghost ls = set.labels();
        let ghost start = *set;
        let mut wcs: Vec<WeakClassifier> = Vec::new();
        let mut weights: Vec<i64> = Vec::new();
        let ghost mut sets: Seq<TrainingImages> = seq![*set];
        let ghost mut mids: Seq<TrainingImages> = seq![];
        let ghost mut pools: Seq<Seq<WeakClassifier>> = seq![all_wcs@];
        loop
            invariant_except_break
                wcs@.len() < limit,
                forall|t: int| 0 <= t < wcs@.len() ==> !#[trigger] degenerate_round(mids, wcs@, t),
            invariant
                set.wf(),
                set.spec_len() > 0,
                set.images() == imgs,
                set.labels() == ls,
                set.spec_width() == w0,
                set.spec_height() == h0,
                all_wcs@.len() == pool.len(),
                pool == old(all_wcs)@,
                pool.len() > 0,
                forall|k: int| 0 <= k < pool.len() ==> (#[trigger] all_wcs@[k]).feature == pool[k].feature,
                forall|k: int| 0 <= k < pool.len() ==> (#[trigger] pool[k]).feature.fits(w0, h0),
                wcs@.len() == weights@.len(),
                limit > 0,
                num_wcs matches Some(n) ==> limit == n,
                num_wcs is None ==> limit == MAX_STAGE_SIZE,
                drawn_from(wcs@, pool),
                start == *old(set),
                start.images() == imgs,
                start.labels() == ls,
                boosting_history(sets, mids, pools, wcs@, weights@),
                sets[0] == start,
                sets[wcs@.len() as int] == *set,
                pools[0] == pool,
                pools[wcs@.len() as int] == all_wcs@,
            ensures
                1 <= wcs@.len() <= limit,
                pool == old(all_wcs)@,
                drawn_from(wcs@, pool),
                start == *old(set),
                set.wf(),
                set.images() == imgs,
                set.labels() == ls,
                set.spec_width() == w0,
                set.spec_height() == h0,
                all_wcs@.len() == pool.len(),
                forall|k: int| 0 <= k < pool.len() ==> (#[trigger] all_wcs@[k]).feature == pool[k].feature,
                wcs@.len() == weights@.len(),
                boosting_history(sets, mids, pools, wcs@, weights@),
                sets[0] == start,
                sets[wcs@.len() as int] == *set,
                pools[0] == pool,
                pools[wcs@.len() as int] == all_wcs@,
                forall|t: int| 0 <= t < wcs@.len() - 1 ==> !#[trigger] degenerate_round(mids, wcs@, t),
                wcs@.len() == limit || degenerate_round(mids, wcs@, wcs@.len() - 1) || (num_wcs is None
                    && stage_false_positives_within(
                    StrongClassifier { wcs, weights },
                    start,
                    MAX_FALSE_POS_PER_MILLE as int,
                )),
            decreases limit - wcs@.len(),
        {
            let ghost before_set = *set;
            let ghost old_wcs = wcs@;
            let (wc, vote, err, total) = boost_round(all_wcs, set);
            wcs.push(wc);
            weights.push(vote);
            proof {
                let mid = choose|mid: TrainingImages|
                    {
                        &&& boosting_round(before_set, mid, *set, all_wcs@, wc, vote)
                        &&& err == wc.weighted_error(mid)
                        &&& total == mid.total()
                    };
                assert(first_best(wc, all_wcs@, mid));
                let b = choose|b: int| 0 <= b < all_wcs@.len() && wc == all_wcs@[b];
                assert(wc.feature == pool[b].feature);
                assert forall|i: int| 0 <= i < wcs@.len() implies exists|k: int|
                    0 <= k < pool.len() && (#[trigger] wcs@[i]).feature == pool[k].feature by {
                    if i == wcs@.len() - 1 {
                        assert(wcs@[i].feature == pool[b].feature);
                    }
                }
                let old_sets = sets;
                let old_mids = mids;
                let old_pools = pools;
                sets = sets.push(*set);
                mids = mids.push(mid);
                pools = pools.push(all_wcs@);
                let n = wcs@.len() as int;
                assert forall|t: int| 0 <= t < n implies boosting_round(
                    sets[t],
                    #[trigger] mids[t],
                    sets[t + 1],
                    pools[t + 1],
                    wcs@[t],
                    weights@[t],
                ) by {
                    if t < n - 1 {
                        assert(sets[t] == old_sets[t]);
                        assert(sets[t + 1] == old_sets[t + 1]);
                        assert(mids[t] == old_mids[t]);
                        assert(pools[t + 1] == old_pools[t + 1]);
                    }
                }
                assert(degenerate_round(mids, wcs@, n - 1) <==> (err == 0 || err >= total));
                assert forall|t: int| 0 <= t < n - 1 implies !#[trigger] degenerate_round(mids, wcs@, t) by {
                    assert(mids[t] == old_mids[t]);
                    assert(wcs@[t] == old_wcs[t]);
                    assert(!degenerate_round(old_mids, old_wcs, t));
                }
            }
            if wcs.len() >= limit || err == 0 || err >= total {
                break;
            }
            if num_wcs.is_none() {
                let sc = StrongClassifier { wcs, weights };
                let within = false_positives_within(&sc, set, MAX_FALSE_POS_PER_MILLE);
                proof {
                    assert(stage_answers(sc, *set) =~= stage_answers(sc, start));
                }
                wcs = sc.wcs;
                weights = sc.weights;
                if within {
                    break;
                }
            }
        }
        proof {
            let sc = StrongClassifier { wcs, weights };
            let n = sc.wcs@.len() as int;
            assert(boosting_history(sets, mids, pools, sc.wcs@, sc.weights@));
            assert(sets[0] == *old(set) && sets[n] == *set);
            assert(pools[0] == old(all_wcs)@ && pools[n] == all_wcs@);
            assert(stage_trained(*old(set), *set, old(all_wcs)@, all_wcs@, sc, num_wcs));
        }
        StrongClassifier { wcs, weights }
    }
}

/// The classifier's answer on every sample of `set`.
pub open spec fn stage_answers(sc: StrongClassifier, set: TrainingImages) -> Seq<bool> {
    Seq::new(set.spec_len() as nat, |k: int| sc.accepts(&set.images()[k]))
}

/// Whether the classifier accepts at most `per_mille` thousandths of the
/// negative samples of the set (true when the set has no negatives).
pub fn false_positives_within(sc: &StrongClassifier, set: &TrainingImages, per_mille: u64) -> (r: bool)
    requires
        sc.wf(),
        set.wf(),
        forall|i: int|
            0 <= i < sc.wcs@.len() ==> (#[trigger] sc.wcs@[i]).feature.fits(set.spec_width(), set.spec_height()),
        per_mille <= 1000,
    ensures
        r == stage_false_positives_within(*sc, *set, per_mille as int),
{
    let n = set.len();
    let ghost ls = set.labels();
    let ghost ans = stage_answers(*sc, *set);
    let mut negatives: u64 = 0;
    let mut false_pos: u64 = 0;
    let mut k: usize = 0;
    while k < n
        invariant
            k <= n,
            n == set.spec_len(),
            set.wf(),
            sc.wf(),
            forall|i: int|
                0 <= i < sc.wcs@.len() ==> (#[trigger] sc.wcs@[i]).feature.fits(set.spec_width(), set.spec_height()),
            ls == set.labels(),
            ans == stage_answers(*sc, *set),
            false_pos == count_answers(ls.subrange(0, k as int), ans.subrange(0, k as int), false, true),
            negatives == count_labels(ls.subrange(0, k as int), false),
            false_pos <= negatives <= k,
        decreases n - k,
    {
        proof {
            assert(ls.subrange(0, k + 1).drop_last() =~= ls.subrange(0, k as int));
            assert(ans.subrange(0, k + 1).drop_last() =~= ans.subrange(0, k as int));
        }
        if !set.is_object(k) {
            negatives = negatives + 1;
            let img = set.image(k);
            proof {
                assert forall|i: int| 0 <= i < sc.wcs@.len() implies (#[trigger] sc.wcs@[i]).feature.admitted_by(img) by {
                    assert(sc.wcs@[i].feature.fits(set.spec_width(), set.spec_height()));
                }
            }
            if sc.classify(img) {
                false_pos = false_pos + 1;
            }
        }
        k = k + 1;
    }
    proof {
        assert(ls.subrange(0, n as int) =~= ls);
        assert(ans.subrange(0, n as int) =~= ans);
        assert((per_mille as int) * (negatives as int) <= 1000 * 0x1_0000_0000_0000_0000) by (nonlinear_arith)
            requires
                per_mille <= 1000,
                negatives <= 0xffff_ffff_ffff_ffff,
        ;
    }
    (false_pos as u128) * 1000 <= (per_mille as u128) * (negatives as u128)
}

} // verus!
