use vstd::prelude::*;
use crate::constants::{MAX_CASCADE_SIZE, TARGET_FALSE_POS_PER_MILLE, WH, WL};
use crate::integral_image::IntegralImageTrait;
use crate::features::all_features;
use crate::strong_classifier::{drawn_from, stage_trained, StrongClassifier};
use crate::training::{filter_by, kept_pair, lemma_filter_pairs, pair_at, TrainingImages};
use crate::weak_classifier::WeakClassifier;

verus! {

/// An ordered chain of strong classifiers: a sample is accepted only when
/// every stage accepts it.
#[derive(Debug, Clone)]
pub struct Cascade {
    pub scs: Vec<StrongClassifier>,
}

/// Why a cascade could not be built.
#[derive(Debug, Clone, Copy, PartialEq, Eq, Structural)]
pub enum BuildError {
    /// The training set holds no sample.
    EmptyTrainingSet,
    /// The samples are not of the detection window's size.
    WrongSampleSize,
    /// The layout names no stage, or a stage of no weak classifier.
    BadLayout,
    /// The feature space of the window is empty.
    EmptyFeaturePool,
    /// Without a layout, `MAX_CASCADE_SIZE` stages were built and more than
    /// `TARGET_FALSE_POS_PER_MILLE` thousandths of the negatives still pass.
    TargetNotReached,
}

/// Counts of a classifier's answers over a labelled set.
#[derive(Debug, Clone, Copy, PartialEq, Eq, Structural)]
pub struct TestCounts {
    /// Negatives that were accepted.
    pub false_positives: u64,
    /// All negatives.
    pub negatives: u64,
    /// Positives that were accepted.
    pub detections: u64,
    /// All positives.
    pub positives: u64,
}

/// Every member of every stage has a feature that fits a `w` by `h` window.
pub open spec fn stages_fit(scs: Seq<StrongClassifier>, w: int, h: int) -> bool {
    forall|s: int, i: int|
        0 <= s < scs.len() && 0 <= i < scs[s].wcs@.len() ==> (#[trigger] scs[s].wcs@[i]).feature.fits(w, h)
}

/// Number of samples labelled `lab` whose answer is `ans`.
pub open spec fn count_answers(labels: Seq<bool>, answers: Seq<bool>, lab: bool, ans: bool) -> int
    decreases labels.len(),
{
    if labels.len() == 0 {
        0
    } else {
        count_answers(labels.drop_last(), answers.drop_last(), lab, ans) + if labels.last() == lab
            && answers.last() == ans {
            1int
        } else {
            0
        }
    }
}

/// Number of samples labelled `lab`.
pub open spec fn count_labels(labels: Seq<bool>, lab: bool) -> int
    decreases labels.len(),
{
    if labels.len() == 0 {
        0
    } else {
        count_labels(labels.drop_last(), lab) + if labels.last() == lab {
            1int
        } else {
            0
        }
    }
}

/// The layout names at least one stage and no stage of zero classifiers.
pub open spec fn layout_valid(layout: Option<Vec<usize>>) -> bool {
    match layout {
        Some(l) => l@.len() > 0 && forall|i: int| 0 <= i < l@.len() ==> l@[i] > 0,
        None => true,
    }
}

/// The size asked of stage `k`.
pub open spec fn stage_size(layout: Option<Vec<usize>>, k: int) -> Option<usize> {
    match layout {
        Some(l) => Some(l@[k]),
        None => None,
    }
}

/// `next` is `prev` without the negatives `sc` rejects: the positives and the
/// negatives `sc` accepts stay, in order, with their weights.
pub open spec fn bootstrapped(prev: TrainingImages, sc: StrongClassifier, next: TrainingImages) -> bool {
    let keep = Seq::new(prev.spec_len() as nat, |k: int| prev.labels()[k] || sc.accepts(&prev.images()[k]));
    &&& next.images() == filter_by(prev.images(), keep)
    &&& next.weights() == filter_by(prev.weights(), keep)
    &&& next.labels() == filter_by(prev.labels(), keep)
    &&& next.spec_width() == prev.spec_width()
    &&& next.spec_height() == prev.spec_height()
}

/// Stage `k` is boosted on `sets[k]`, which it leaves as `boosted[k]`
/// (the pool going from `pools[k]` to `pools[k + 1]`), and `sets[k + 1]` is
/// `boosted[k]` without the negatives stage `k` rejects.
pub open spec fn cascade_history(
    sets: Seq<TrainingImages>,
    boosted: Seq<TrainingImages>,
    pools: Seq<Seq<WeakClassifier>>,
    scs: Seq<StrongClassifier>,
    layout: Option<Vec<usize>>,
) -> bool {
    &&& sets.len() == scs.len() + 1
    &&& boosted.len() == scs.len()
    &&& pools.len() == scs.len() + 1
    &&& forall|k: int|
        0 <= k < scs.len() ==> {
            &&& stage_trained(sets[k], #[trigger] boosted[k], pools[k], pools[k + 1], scs[k], stage_size(layout, k))
            &&& bootstrapped(boosted[k], scs[k], sets[k + 1])
        }
}

/// `pool` is the feature space of a `wl` by `wh` window as weak classifiers
/// with threshold zero and negative polarity.
pub open spec fn initial_pool(pool: Seq<WeakClassifier>, wl: int, wh: int) -> bool {
    &&& pool.len() == all_features(wl, wh).len()
    &&& forall|k: int|
        0 <= k < pool.len() ==> #[trigger] pool[k] == WeakClassifier {
            feature: all_features(wl, wh)[k],
            threshold: 0,
            pos_polarity: false,
        }
}

/// `c` is a chain of stages trained from `set`, ending with the training
/// set `last`: each stage is boosted on the set the previous ones left, then
/// stripped of the negatives it rejects, starting from the whole feature
/// space.
pub open spec fn cascade_ended(
    set: TrainingImages,
    c: Cascade,
    layout: Option<Vec<usize>>,
    wl: int,
    wh: int,
    last: TrainingImages,
) -> bool {
    exists|sets: Seq<TrainingImages>, boosted: Seq<TrainingImages>, pools: Seq<Seq<WeakClassifier>>|
        {
            &&& #[trigger] cascade_history(sets, boosted, pools, c.scs@, layout)
            &&& sets[0] == set
            &&& initial_pool(pools[0], wl, wh)
            &&& sets[c.scs@.len() as int] == last
        }
}

/// The negatives left in `last` are at most `TARGET_FALSE_POS_PER_MILLE`
/// thousandths of those of `first`.
pub open spec fn target_met(first: TrainingImages, last: TrainingImages) -> bool {
    count_labels(last.labels(), false) * 1000 <= TARGET_FALSE_POS_PER_MILLE * count_labels(first.labels(), false)
}

/// `c` is a finished chain of stages trained from `set`: with a layout, one
/// stage per entry unless no sample is left; without one, the negatives
/// still accepted are at most `TARGET_FALSE_POS_PER_MILLE` thousandths of the
/// starting ones.
pub open spec fn cascade_trained(set: TrainingImages, c: Cascade, layout: Option<Vec<usize>>, wl: int, wh: int) -> bool {
    exists|last: TrainingImages|
        {
            &&& #[trigger] cascade_ended(set, c, layout, wl, wh, last)
            &&& match layout {
                Some(l) => c.scs@.len() == l@.len() || last.spec_len() == 0,
                None => target_met(set, last),
            }
        }
}

/// What building a cascade on `set` for a `wl` by `wh` window gives.
pub open spec fn build_outcome(
    set: TrainingImages,
    layout: Option<Vec<usize>>,
    wl: int,
    wh: int,
    r: Result<Cascade, BuildError>,
) -> bool {
    let sized = set.spec_len() > 0 && set.spec_width() == wl && set.spec_height() == wh;
    &&& set.spec_len() == 0 ==> r == Err::<Cascade, BuildError>(BuildError::EmptyTrainingSet)
    &&& (set.spec_len() > 0 && (set.spec_width() != wl || set.spec_height() != wh)) ==> r
        == Err::<Cascade, BuildError>(BuildError::WrongSampleSize)
    &&& (sized && !layout_valid(layout)) ==> r == Err::<Cascade, BuildError>(BuildError::BadLayout)
    &&& (sized && layout_valid(layout) && all_features(wl, wh).len() == 0) ==> r == Err::<
        Cascade,
        BuildError,
    >(BuildError::EmptyFeaturePool)
    &&& (sized && layout_valid(layout) && all_features(wl, wh).len() > 0) ==> (r is Ok || (layout is None
        && r == Err::<Cascade, BuildError>(BuildError::TargetNotReached)))
    &&& r == Err::<Cascade, BuildError>(BuildError::TargetNotReached) ==> {
        &&& sized
        &&& layout is None
        &&& exists|c: Cascade, last: TrainingImages|
            {
                &&& #[trigger] cascade_ended(set, c, layout, wl, wh, last)
                &&& c.scs@.len() == MAX_CASCADE_SIZE
                &&& !target_met(set, last)
            }
    }
    &&& r matches Ok(c) ==> {
        let n = c.scs@.len() as int;
        &&& c.wf()
        &&& 1 <= n
        &&& stages_fit(c.scs@, wl, wh)
        &&& (layout matches Some(l) ==> n <= l@.len())
        &&& (layout is None ==> n <= MAX_CASCADE_SIZE)
        &&& cascade_trained(set, c, layout, wl, wh)
    }
}

impl Cascade {
    pub open spec fn wf(&self) -> bool {
        forall|s: int| 0 <= s < self.scs@.len() ==> (#[trigger] self.scs@[s]).wf()
    }

    /// Every member's feature can be evaluated on `ii`.
    pub open spec fn admitted_by<I: IntegralImageTrait>(&self, ii: &I) -> bool {
        forall|s: int| 0 <= s < self.scs@.len() ==> (#[trigger] self.scs@[s]).admitted_by(ii)
    }

    /// Every stage accepts the sample.
    pub open spec fn accepts<I: IntegralImageTrait>(&self, ii: &I) -> bool {
        forall|s: int| 0 <= s < self.scs@.len() ==> (#[trigger] self.scs@[s]).accepts(ii)
    }

    /// The cascade's answer on every sample of `set`.
    pub open spec fn answers(&self, set: TrainingImages) -> Seq<bool> {
        Seq::new(set.spec_len() as nat, |k: int| self.accepts(&set.images()[k]))
    }

    /// Whether every stage pairs each weak classifier with a vote and every
    /// rectangle lies inside a `wl` by `wh` window.
    pub fn is_well_formed(&self, wl: u8, wh: u8) -> (r: bool)
        ensures
            r == (self.wf() && stages_fit(self.scs@, wl as int, wh as int)),
    {
        let mut s: usize = 0;
        while s < self.scs.len()
            invariant
                s <= self.scs@.len(),
                forall|t: int| 0 <= t < s ==> (#[trigger] self.scs@[t]).wf(),
                forall|t: int, i: int|
                    0 <= t < s && 0 <= i < self.scs@[t].wcs@.len() ==> (#[trigger] self.scs@[t].wcs@[i]).feature.fits(
                        wl as int,
                        wh as int,
                    ),
            decreases self.scs@.len() - s,
        {
            let sc = &self.scs[s];
            if sc.wcs.len() != sc.weights.len() {
                return false;
            }
            let mut i: usize = 0;
            while i < sc.wcs.len()
                invariant
                    s < self.scs@.len(),
                    *sc == self.scs@[s as int],
                    i <= sc.wcs@.len(),
                    forall|j: int| 0 <= j < i ==> (#[trigger] sc.wcs@[j]).feature.fits(wl as int, wh as int),
                decreases sc.wcs@.len() - i,
            {
                if !sc.wcs[i].feature.fits_in(wl, wh) {
                    return false;
                }
                i = i + 1;
            }
            s = s + 1;
        }
        true
    }

    /// Classifies a sample: accepted when every stage accepts it, stopping at
    /// the first stage that rejects it.
    pub fn classify<I: IntegralImageTrait>(&self, ii: &I) -> (r: bool)
        requires
            self.wf(),
            self.admitted_by(ii),
        ensures
            r == self.accepts(ii),
    {
        let mut s: usize = 0;
        while s < self.scs.len()
            invariant
                s <= self.scs@.len(),
                self.wf(),
                self.admitted_by(ii),
                forall|t: int| 0 <= t < s ==> (#[trigger] self.scs@[t]).accepts(ii),
            decreases self.scs@.len() - s,
        {
            if !self.scs[s].classify(ii) {
                return false;
            }
            s = s + 1;
        }
        true
    }

    /// Counts, over a labelled set, the negatives and positives and how many
    /// of each the cascade accepts.
    pub fn test(&self, set: &TrainingImages) -> (c: TestCounts)
        requires
            self.wf(),
            set.wf(),
            stages_fit(self.scs@, set.spec_width(), set.spec_height()),
        ensures
            c.false_positives == count_answers(set.labels(), self.answers(*set), false, true),
            c.negatives == count_labels(set.labels(), false),
            c.detections == count_answers(set.labels(), self.answers(*set), true, true),
            c.positives == count_labels(set.labels(), true),
    {
        let n = set.len();
        let ghost ls = set.labels();
        let ghost ans = self.answers(*set);
        let mut c = TestCounts { false_positives: 0, negatives: 0, detections: 0, positives: 0 };
        let mut k: usize = 0;
        while k < n
            invariant
                k <= n,
                n == set.spec_len(),
                set.wf(),
                self.wf(),
                stages_fit(self.scs@, set.spec_width(), set.spec_height()),
                ls == set.labels(),
                ans == self.answers(*set),
                c.false_positives == count_answers(ls.subrange(0, k as int), ans.subrange(0, k as int), false, true),
                c.negatives == count_labels(ls.subrange(0, k as int), false),
                c.detections == count_answers(ls.subrange(0, k as int), ans.subrange(0, k as int), true, true),
                c.positives == count_labels(ls.subrange(0, k as int), true),
                c.false_positives <= k && c.negatives <= k && c.detections <= k && c.positives <= k,
            decreases n - k,
        {
            let img = set.image(k);
            proof {
                lemma_fits_admitted(self, img, set.spec_width(), set.spec_height());
                assert(ls.subrange(0, k + 1).drop_last() =~= ls.subrange(0, k as int));
                assert(ans.subrange(0, k + 1).drop_last() =~= ans.subrange(0, k as int));
                lemma_counts_bounded(ls.subrange(0, k as int), ans.subrange(0, k as int));
            }
            let accepted = self.classify(img);
            if set.is_object(k) {
                c.positives = c.positives + 1;
                if accepted {
                    c.detections = c.detections + 1;
                }
            } else {
                c.negatives = c.negatives + 1;
                if accepted {
                    c.false_positives = c.false_positives + 1;
                }
            }
            k = k + 1;
        }
        proof {
            assert(ls.subrange(0, n as int) =~= ls);
            assert(ans.subrange(0, n as int) =~= ans);
        }
        c
    }

    /// Builds a cascade stage by stage from a training set of window-sized
    /// samples. Each stage is boosted on the current set (with
    /// `layout[i]` weak classifiers when a layout is given), then every
    /// negative sample it rejects is removed, so the next stage trains on
    /// the positives and the surviving false positives. Without a layout,
    /// stages are added until the negatives still accepted are at most
    /// `TARGET_FALSE_POS_PER_MILLE` thousandths of the starting negatives,
    /// or `MAX_CASCADE_SIZE` stages are built. Building also stops when no
    /// sample is left.
    pub fn build(set: TrainingImages, layout: Option<Vec<usize>>) -> (r: Result<Cascade, BuildError>)
        requires
            set.wf(),
        ensures
            build_outcome(set, layout, WL as int, WH as int, r),
    {
        Cascade::build_for_window(set, layout, WL, WH)
    }

    /// `build` for a detection window of `wl` by `wh` pixels.
    pub fn build_for_window(set: TrainingImages, layout: Option<Vec<usize>>, wl: u8, wh: u8) -> (r: Result<Cascade, BuildError>)
        requires
            set.wf(),
        ensures
            build_outcome(set, layout, wl as int, wh as int, r),
    {
        if set.len() == 0 {
            return Err(BuildError::EmptyTrainingSet);
        }
        if set.width() != wl as usize || set.height() != wh as usize {
            return Err(BuildError::WrongSampleSize);
        }
        let stages: usize = match &layout {
            Some(l) => {
                if l.len() == 0 {
                    return Err(BuildError::BadLayout);
                }
                let mut i: usize = 0;
                while i < l.len()
                    invariant
                        i <= l@.len(),
                        layout == Some(*l),
                        set.spec_len() > 0,
                        set.spec_width() == wl,
                        set.spec_height() == wh,
                        forall|j: int| 0 <= j < i ==> l@[j] != 0,
                    decreases l@.len() - i,
                {
                    if l[i] == 0 {
                        return Err(BuildError::BadLayout);
                    }
                    i = i + 1;
                }
                l.len()
            },
            None => MAX_CASCADE_SIZE,
        };
        let mut wcs = WeakClassifier::get_all_for(wl, wh);
        if wcs.len() == 0 {
            return Err(BuildError::EmptyFeaturePool);
        }
        let ghost given = set;
        let mut set = set;
        let ghost pool = wcs@;
        let start_negatives = count_negatives(&set);
        let mut scs: Vec<StrongClassifier> = Vec::new();
        let ghost mut sets: Seq<TrainingImages> = seq![set];
        let ghost mut boosted: Seq<TrainingImages> = seq![];
        let ghost mut pools: Seq<Seq<WeakClassifier>> = seq![wcs@];
        proof {
            assert(initial_pool(pool, wl as int, wh as int));
        }
        loop
            invariant_except_break
                scs@.len() < stages,
                set.spec_len() > 0,
            invariant
                given.spec_len() > 0,
                given.spec_width() == wl,
                given.spec_height() == wh,
                set.wf(),
                set.spec_width() == wl,
                set.spec_height() == wh,
                wcs@.len() == pool.len(),
                pool.len() > 0,
                forall|k: int| 0 <= k < pool.len() ==> (#[trigger] wcs@[k]).feature == pool[k].feature,
                forall|k: int| 0 <= k < pool.len() ==> (#[trigger] pool[k]).feature.fits(wl as int, wh as int),
                forall|s: int| 0 <= s < scs@.len() ==> (#[trigger] scs@[s]).wf(),
                stages_fit(scs@, wl as int, wh as int),
                layout matches Some(l) ==> stages == l@.len() && forall|j: int| 0 <= j < l@.len() ==> l@[j] > 0,
                layout is None ==> stages == MAX_CASCADE_SIZE,
                layout_valid(layout),
                start_negatives == count_labels(given.labels(), false),
                initial_pool(pool, wl as int, wh as int),
                cascade_history(sets, boosted, pools, scs@, layout),
                sets[0] == given,
                pools[0] == pool,
                sets[scs@.len() as int] == set,
                pools[scs@.len() as int] == wcs@,
            ensures
                1 <= scs@.len() <= stages,
                layout_valid(layout),
                start_negatives == count_labels(given.labels(), false),
                initial_pool(pool, wl as int, wh as int),
                cascade_history(sets, boosted, pools, scs@, layout),
                sets[0] == given,
                pools[0] == pool,
                sets[scs@.len() as int] == set,
                scs@.len() == stages || set.spec_len() == 0 || (layout is None && count_labels(
                    set.labels(),
                    false,
                ) * 1000 <= TARGET_FALSE_POS_PER_MILLE * count_labels(given.labels(), false)),
            decreases stages - scs@.len(),
        {
            let num_wcs: Option<usize> = match &layout {
                Some(l) => Some(l[scs.len()]),
                None => None,
            };
            let ghost pool_now = wcs@;
            let ghost set_now = set;
            proof {
                assert(num_wcs == stage_size(layout, scs@.len() as int));
            }
            let sc = StrongClassifier::build(&mut wcs, &mut set, num_wcs);
            let ghost after_boost = set;
            proof {
                assert forall|i: int| 0 <= i < sc.wcs@.len() implies (#[trigger] sc.wcs@[i]).feature.fits(wl as int, wh as int) by {
                    assert(drawn_from(sc.wcs@, pool_now));
                    let k = choose|k: int| 0 <= k < pool_now.len() && sc.wcs@[i].feature == pool_now[k].feature;
                    assert(pool_now[k].feature == pool[k].feature);
                }
            }
            remove_true_negatives(&mut set, &sc);
            let ghost before = scs@;
            scs.push(sc);
            proof {
                let (os, ob, op) = (sets, boosted, pools);
                sets = sets.push(set);
                boosted = boosted.push(after_boost);
                pools = pools.push(wcs@);
                let n = scs@.len() as int;
                assert forall|k: int| 0 <= k < n implies {
                    &&& stage_trained(sets[k], #[trigger] boosted[k], pools[k], pools[k + 1], scs@[k], stage_size(layout, k))
                    &&& bootstrapped(boosted[k], scs@[k], sets[k + 1])
                } by {
                    if k < n - 1 {
                        assert(sets[k] == os[k] && sets[k + 1] == os[k + 1]);
                        assert(boosted[k] == ob[k]);
                        assert(pools[k] == op[k] && pools[k + 1] == op[k + 1]);
                        assert(scs@[k] == before[k]);
                    } else {
                        assert(sets[k] == set_now);
                        assert(pools[k] == pool_now);
                    }
                }
                assert forall|s: int, i: int| 0 <= s < scs@.len() && 0 <= i < scs@[s].wcs@.len() implies
                    (#[trigger] scs@[s].wcs@[i]).feature.fits(wl as int, wh as int) by {
                    if s < before.len() {
                        assert(scs@[s] == before[s]);
                    }
                }
            }
            if scs.len() >= stages || set.len() == 0 {
                break;
            }
            if layout.is_none() {
                let left = count_negatives(&set);
                if (left as u128) * 1000 <= (TARGET_FALSE_POS_PER_MILLE as u128) * (start_negatives as u128) {
                    break;
                }
            }
        }
        proof {
            let c = Cascade { scs };
            assert(cascade_ended(given, c, layout, wl as int, wh as int, set)) by {
                assert(cascade_history(sets, boosted, pools, c.scs@, layout));
            }
        }
        if layout.is_none() {
            let left = count_negatives(&set);
            if (left as u128) * 1000 > (TARGET_FALSE_POS_PER_MILLE as u128) * (start_negatives as u128) {
                proof {
                    let c = Cascade { scs };
                    if set.spec_len() == 0 {
                        assert(set.labels().len() == 0);
                    }
                    assert(c.scs@.len() == MAX_CASCADE_SIZE);
                    assert(cascade_ended(given, c, layout, wl as int, wh as int, set));
                }
                return Err(BuildError::TargetNotReached);
            }
        }
        proof {
            let c = Cascade { scs };
            if layout is None {
                assert(target_met(given, set));
            }
            assert(cascade_trained(given, c, layout, wl as int, wh as int));
            assert(build_outcome(given, layout, wl as int, wh as int, Ok::<Cascade, BuildError>(c)));
        }
        Ok(Cascade { scs })
    }
}

/// Whether the cascade rejects every sample that one of its stages rejects,
/// whatever the other stages hold.
pub proof fn lemma_rejection_is_final<I: IntegralImageTrait>(c: Cascade, ii: &I, k: int)
    requires
        0 <= k < c.scs@.len(),
        !c.scs@[k].accepts(ii),
    ensures
        !c.accepts(ii),
{
}

/// Bootstrapping leaves no true negative behind and loses nothing else:
/// every sample left is a positive or one the stage accepts, and every
/// positive and every negative the stage accepts is still there, with its
/// label.
pub proof fn lemma_bootstrap_keeps_exactly(prev: TrainingImages, sc: StrongClassifier, next: TrainingImages)
    requires
        prev.wf(),
        bootstrapped(prev, sc, next),
    ensures
        next.labels().len() == next.spec_len(),
        forall|j: int| 0 <= j < next.spec_len() ==> next.labels()[j] || sc.accepts(&#[trigger] next.images()[j]),
        forall|k: int|
            0 <= k < prev.spec_len() && (prev.labels()[k] || sc.accepts(&#[trigger] prev.images()[k])) ==> exists|j: int|
                0 <= j < next.spec_len() && next.images()[j] == prev.images()[k] && next.labels()[j] == prev.labels()[k],
{
    let keep = Seq::new(prev.spec_len() as nat, |k: int| prev.labels()[k] || sc.accepts(&prev.images()[k]));
    lemma_filter_pairs(prev.images(), prev.labels(), keep);
    assert forall|j: int| 0 <= j < next.spec_len() implies next.labels()[j] || sc.accepts(&#[trigger] next.images()[j]) by {
        assert(kept_pair(prev.images(), prev.labels(), keep, next.images()[j], next.labels()[j]));
        let k = choose|k: int|
            0 <= k < prev.images().len() && keep[k] && #[trigger] prev.images()[k] == next.images()[j] && prev.labels()[k]
                == next.labels()[j];
    }
    assert forall|k: int| 0 <= k < prev.spec_len() && (prev.labels()[k] || sc.accepts(&#[trigger] prev.images()[k])) implies exists|j: int|
        0 <= j < next.spec_len() && next.images()[j] == prev.images()[k] && next.labels()[j] == prev.labels()[k] by {
        assert(keep[k]);
        assert(pair_at(next.images(), next.labels(), prev.images()[k], prev.labels()[k]));
    }
}

proof fn lemma_counts_bounded(labels: Seq<bool>, answers: Seq<bool>)
    ensures
        forall|lab: bool, ans: bool| 0 <= #[trigger] count_answers(labels, answers, lab, ans) <= labels.len(),
        forall|lab: bool| 0 <= #[trigger] count_labels(labels, lab) <= labels.len(),
    decreases labels.len(),
{
    if labels.len() > 0 {
        lemma_counts_bounded(labels.drop_last(), answers.drop_last());
        assert forall|lab: bool, ans: bool| 0 <= #[trigger] count_answers(labels, answers, lab, ans) <= labels.len() by {
            assert(0 <= count_answers(labels.drop_last(), answers.drop_last(), lab, ans) <= labels.len() - 1);
        }
        assert forall|lab: bool| 0 <= #[trigger] count_labels(labels, lab) <= labels.len() by {
            assert(0 <= count_labels(labels.drop_last(), lab) <= labels.len() - 1);
        }
    }
}

proof fn lemma_fits_admitted<I: IntegralImageTrait>(c: &Cascade, ii: &I, w: int, h: int)
    requires
        stages_fit(c.scs@, w, h),
        ii.spec_image_width() == w,
        ii.spec_image_height() == h,
        forall|r: crate::geometry::Window| r.fits(w, h) ==> #[trigger] ii.admits(r),
    ensures
        c.admitted_by(ii),
{
    assert forall|s: int| 0 <= s < c.scs@.len() implies (#[trigger] c.scs@[s]).admitted_by(ii) by {
        assert forall|i: int| 0 <= i < c.scs@[s].wcs@.len() implies (#[trigger] c.scs@[s].wcs@[i]).feature.admitted_by(ii) by {
            assert(c.scs@[s].wcs@[i].feature.fits(w, h));
        }
    }
}

/// The number of negative samples in the set.
pub fn count_negatives(set: &TrainingImages) -> (n: u64)
    requires
        set.wf(),
    ensures
        n == count_labels(set.labels(), false),
{
    let len = set.len();
    let ghost ls = set.labels();
    let mut n: u64 = 0;
    let mut k: usize = 0;
    while k < len
        invariant
            k <= len,
            len == set.spec_len(),
            set.wf(),
            ls == set.labels(),
            n == count_labels(ls.subrange(0, k as int), false),
            n <= k,
        decreases len - k,
    {
        proof {
            assert(ls.subrange(0, k + 1).drop_last() =~= ls.subrange(0, k as int));
        }
        if !set.is_object(k) {
            n = n + 1;
        }
        k = k + 1;
    }
    proof {
        assert(ls.subrange(0, len as int) =~= ls);
    }
    n
}

/// Removes from the set every negative sample that the stage rejects: only
/// the positives and the negatives the stage accepts (false positives)
/// stay, in order, with their weights.
pub fn remove_true_negatives(set: &mut TrainingImages, sc: &StrongClassifier)
    requires
        old(set).wf(),
        sc.wf(),
        forall|i: int|
            0 <= i < sc.wcs@.len() ==> (#[trigger] sc.wcs@[i]).feature.fits(old(set).spec_width(), old(set).spec_height()),
    ensures
        final(set).wf(),
        bootstrapped(*old(set), *sc, *final(set)),
{
    let n = set.len();
    let mut keep: Vec<bool> = Vec::new();
    let mut k: usize = 0;
    while k < n
        invariant
            k <= n,
            n == set.spec_len(),
            set.wf(),
            sc.wf(),
            forall|i: int|
                0 <= i < sc.wcs@.len() ==> (#[trigger] sc.wcs@[i]).feature.fits(set.spec_width(), set.spec_height()),
            keep@.len() == k,
            forall|m: int| 0 <= m < k ==> keep@[m] == (set.labels()[m] || sc.accepts(&set.images()[m])),
        decreases n - k,
    {
        if set.is_object(k) {
            keep.push(true);
        } else {
            let img = set.image(k);
            keep.push(sc.classify(img));
        }
        k = k + 1;
    }
    let ghost old_set = *set;
    proof {
        assert(keep@ =~= Seq::new(
            old_set.spec_len() as nat,
            |k: int| old_set.labels()[k] || sc.accepts(&old_set.images()[k]),
        ));
    }
    set.retain(&keep);
}

} // verus!
