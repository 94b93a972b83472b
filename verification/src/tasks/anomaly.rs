//! Anomaly detection: a distance-based detector whose neighbour count and operating threshold
//! are searched jointly.
//!
//! Each point's score is its mean distance to its nearest neighbours among a mostly normal
//! reference set, and a point is flagged when its score exceeds a threshold. The search
//! maximizes F1 on a labelled evaluation set.

use vstd::prelude::*;
use crate::distribution::{Bounds, DistModel, Distribution};
use crate::error::Error;
use crate::memory::InMemoryStorage;
use crate::metrics::{Direction, NamedMetrics};
#[allow(unused_imports)]
use crate::objective::{Objective, Outcome, ReportLog, ReportSink};
use crate::order::sorted_numbers;
#[allow(unused_imports)]
use crate::param::Assignment;
use crate::param::ParamSet;
use crate::pruner::NoPruner;
use crate::reals::Reals;
use crate::scalar::Scalar;
use crate::space::SearchSpace;
use crate::study::Study;
use crate::tasks::vectors::Vectors;
use crate::tpe::TpeSampler;
#[allow(unused_imports)]
use crate::run::Bench;
#[allow(unused_imports)]
use crate::trial::{Metrics, TrialModel};
#[allow(unused_imports)]
use crate::models;
#[allow(unused_imports)]
use crate::order;
#[allow(unused_imports)]
use crate::objective;
#[allow(unused_imports)]
use crate::param;
#[allow(unused_imports)]
use crate::run;
#[allow(unused_imports)]
use crate::space;
#[allow(unused_imports)]
use crate::tasks::vectors;
#[allow(unused_imports)]
use crate::tpe;

verus! {

/// Of the neighbours asked for, how many are used: at least one, at most all.
pub open spec fn neighbours(k: usize, n: int) -> int {
    if n == 0 {
        0
    } else if k < 1 {
        1
    } else if k > n {
        n
    } else {
        k as int
    }
}

/// Whether `near` holds the least distances, ascending, as many as are used.
pub open spec fn is_nearest(distances: Seq<Scalar>, k: usize, near: Seq<Scalar>) -> bool {
    exists|sorted: Seq<Scalar>| #[trigger]
        order::is_ascending(order::numbers(distances), sorted) && near == sorted.take(
            neighbours(k, sorted.len() as int),
        )
}

/// The `k` least distances, ascending.
pub fn nearest(distances: &Vec<Scalar>, k: usize) -> (near: Vec<Scalar>)
    ensures
        is_nearest(distances@, k, near@),
{
    let sorted = sorted_numbers(distances);
    let n = sorted.len();
    let take: usize = if n == 0 {
        0
    } else if k < 1 {
        1
    } else if k > n {
        n
    } else {
        k
    };
    let mut near: Vec<Scalar> = Vec::new();
    let mut i: usize = 0;
    while i < take
        invariant
            i <= take,
            take <= sorted@.len(),
            near@ == sorted@.take(i as int),
        decreases take - i,
    {
        near.push(sorted[i]);
        proof {
            assert(sorted@.take(i + 1) =~= sorted@.take(i as int).push(sorted@[i as int]));
        }
        i += 1;
    }
    proof {
        assert(order::is_ascending(order::numbers(distances@), sorted@));
    }
    near
}

/// Whether `d` holds answers to the distances of a point to others.
pub open spec fn are_distances<V: Vectors>(
    vectors: &V,
    x: Vec<Scalar>,
    others: Seq<Vec<Scalar>>,
    d: Seq<Scalar>,
) -> bool {
    &&& d.len() == others.len()
    &&& forall|i: int|
        0 <= i < d.len() ==> vectors::is_distance(vectors, x, others[i], #[trigger] d[i])
}

/// Whether `score` is the mean distance of a point to the nearest of a reference, zero without
/// one at a distance.
pub open spec fn is_score<V: Vectors>(
    vectors: &V,
    reference: Seq<Vec<Scalar>>,
    x: Vec<Scalar>,
    k: usize,
    score: Scalar,
) -> bool {
    exists|d: Seq<Scalar>, near: Seq<Scalar>| #[trigger]
        are_distances(vectors, x, reference, d) && #[trigger] is_nearest(d, k, near)
            && if near.len() == 0 {
            score.pattern() == 0
        } else {
            vectors::is_mean(vectors, near, score)
        }
}

/// Whether `scores` are those of query points, one after the other.
pub open spec fn are_scores<V: Vectors>(
    vectors: &V,
    reference: Seq<Vec<Scalar>>,
    queries: Seq<Vec<Scalar>>,
    k: usize,
    scores: Seq<Scalar>,
) -> bool {
    &&& scores.len() == queries.len()
    &&& forall|i: int|
        0 <= i < scores.len() ==> is_score(vectors, reference, queries[i], k, #[trigger] scores[i])
}

/// The mean distance from each query point to its `k` nearest neighbours in `reference`: higher
/// is more anomalous. Zero without a reference.
pub fn knn_anomaly_scores<V: Vectors>(
    reference: &Vec<Vec<Scalar>>,
    queries: &Vec<Vec<Scalar>>,
    k: usize,
    vectors: &V,
) -> (scores: Vec<Scalar>)
    ensures
        are_scores(vectors, reference@, queries@, k, scores@),
        reference@.len() == 0 ==> forall|i: int|
            0 <= i < scores@.len() ==> (#[trigger] scores@[i]).pattern() == 0,
{
    let mut scores: Vec<Scalar> = Vec::new();
    let mut q: usize = 0;
    while q < queries.len()
        invariant
            q <= queries@.len(),
            scores@.len() == q,
            forall|i: int|
                0 <= i < q ==> is_score(
                    vectors,
                    reference@,
                    queries@[i],
                    k,
                    #[trigger] scores@[i],
                ),
            reference@.len() == 0 ==> forall|i: int|
                0 <= i < scores@.len() ==> (#[trigger] scores@[i]).pattern() == 0,
        decreases queries@.len() - q,
    {
        let mut distances: Vec<Scalar> = Vec::new();
        let mut r: usize = 0;
        while r < reference.len()
            invariant
                r <= reference@.len(),
                q < queries@.len(),
                distances@.len() == r,
                forall|i: int|
                    0 <= i < r ==> vectors::is_distance(
                        vectors,
                        queries@[q as int],
                        reference@[i],
                        #[trigger] distances@[i],
                    ),
            decreases reference@.len() - r,
        {
            distances.push(vectors.distance(&queries[q], &reference[r]));
            r += 1;
        }
        let near = nearest(&distances, k);
        proof {
            if reference@.len() == 0 {
                models_pick_nothing(distances@);
            }
        }
        let score = if near.len() == 0 {
            Scalar::zero()
        } else {
            vectors.mean(&near)
        };
        proof {
            assert(are_distances(vectors, queries@[q as int], reference@, distances@));
            assert(is_nearest(distances@, k, near@));
            assert(near@.len() > 0 ==> vectors::is_mean(vectors, near@, score));
            assert(is_score(vectors, reference@, queries@[q as int], k, score));
        }
        scores.push(score);
        q += 1;
    }
    scores
}

proof fn models_pick_nothing(distances: Seq<Scalar>)
    requires
        distances.len() == 0,
    ensures
        order::numbers(distances).len() == 0,
        forall|sorted: Seq<Scalar>| #[trigger]
            order::is_ascending(order::numbers(distances), sorted) ==> sorted.len() == 0,
{
    assert forall|sorted: Seq<Scalar>| #[trigger]
        order::is_ascending(order::numbers(distances), sorted) implies sorted.len() == 0 by {
        order::ascending_is_increasing(order::numbers(distances), sorted);
    }
}

/// Whether `x` stands at `rank`, or last if there are not so many, in the ascending list of the
/// numbers among `values`.
pub open spec fn is_ranked(values: Seq<Scalar>, rank: usize, x: Scalar) -> bool {
    exists|sorted: Seq<Scalar>| #[trigger]
        order::is_ascending(order::numbers(values), sorted) && sorted.len() > 0 && x == sorted[if rank
            < sorted.len() {
            rank as int
        } else {
            sorted.len() - 1
        }]
}

/// The number at `rank` among `values` in ascending order, or the last one; zero when there are
/// none.
pub fn at_rank(values: &Vec<Scalar>, rank: usize) -> (x: Scalar)
    ensures
        order::numbers(values@).len() == 0 ==> x.pattern() == 0,
        order::numbers(values@).len() > 0 ==> is_ranked(values@, rank, x),
{
    let sorted = sorted_numbers(values);
    proof {
        assert(order::is_ascending(order::numbers(values@), sorted@));
        order::ascending_is_increasing(order::numbers(values@), sorted@);
    }
    if sorted.len() == 0 {
        Scalar::zero()
    } else if rank < sorted.len() {
        sorted[rank]
    } else {
        sorted[sorted.len() - 1]
    }
}

/// Whether `x` is the `q`-quantile of `values`: the number at the rank for it among as many
/// numbers, zero when there are none.
pub open spec fn is_quantile<V: Vectors>(
    vectors: &V,
    values: Seq<Scalar>,
    q: Scalar,
    x: Scalar,
) -> bool {
    if order::numbers(values).len() == 0 {
        x.pattern() == 0
    } else {
        exists|rank: usize| #[trigger]
            vectors::is_rank(vectors, q, order::numbers(values).len() as usize, rank)
                && is_ranked(values, rank, x)
    }
}

/// The `q`-quantile of `values`: the number at the rank that `vectors` finds for it among as
/// many numbers. Zero when there are none.
pub fn quantile<V: Vectors>(values: &Vec<Scalar>, q: Scalar, vectors: &V) -> (x: Scalar)
    ensures
        is_quantile(vectors, values@, q, x),
{
    let n = sorted_numbers(values).len();
    if n == 0 {
        return at_rank(values, 0);
    }
    let rank = vectors.rank(q, n);
    proof {
        assert(vectors::is_rank(vectors, q, order::numbers(values@).len() as usize, rank));
    }
    at_rank(values, rank)
}

/// The flags of scores against a threshold.
pub open spec fn flagged(scores: Seq<Scalar>, threshold: Scalar) -> Seq<i64> {
    scores.map_values(
        |s: Scalar|
            if threshold.less(s) {
                1i64
            } else {
                0i64
            },
    )
}

/// Flags the scores above a threshold: `1` for an anomaly, `0` otherwise.
pub fn flag(scores: &Vec<Scalar>, threshold: Scalar) -> (flags: Vec<i64>)
    ensures
        flags@.len() == scores@.len(),
        forall|i: int|
            0 <= i < flags@.len() ==> #[trigger] flags@[i] == if threshold.less(scores@[i]) {
                1i64
            } else {
                0i64
            },
{
    let mut flags: Vec<i64> = Vec::new();
    let mut i: usize = 0;
    while i < scores.len()
        invariant
            i <= scores@.len(),
            flags@.len() == i,
            forall|k: int|
                0 <= k < i ==> #[trigger] flags@[k] == if threshold.less(scores@[k]) {
                    1i64
                } else {
                    0i64
                },
        decreases scores@.len() - i,
    {
        flags.push(
            if threshold.lt(&scores[i]) {
                1
            } else {
                0
            },
        );
        i += 1;
    }
    flags
}

/// How often a label met a prediction among the first `n` pairs.
pub open spec fn met(
    labels: Seq<i64>,
    predictions: Seq<i64>,
    label: i64,
    prediction: i64,
    n: nat,
) -> nat
    decreases n,
{
    if n == 0 {
        0
    } else {
        met(labels, predictions, label, prediction, (n - 1) as nat) + if labels[n - 1] == label
            && predictions[n - 1] == prediction {
            1nat
        } else {
            0nat
        }
    }
}

/// How predictions fared against labels.
#[derive(Debug, Clone, Copy, PartialEq, Eq, Structural)]
pub struct Tally {
    /// Anomalies that were flagged.
    pub hits: u128,
    /// Normal points that were flagged.
    pub false_alarms: u128,
    /// Anomalies that were not flagged.
    pub misses: u128,
}

/// The number of pairs of two lists: as many as the shorter one has items.
pub open spec fn pairs(a: nat, b: nat) -> nat {
    if a < b {
        a
    } else {
        b
    }
}

/// Counts how predictions fared against labels.
pub fn tally(labels: &Vec<i64>, predictions: &Vec<i64>) -> (t: Tally)
    ensures
        t.hits == met(labels@, predictions@, 1, 1, pairs(labels@.len(), predictions@.len())),
        t.false_alarms == met(
            labels@,
            predictions@,
            0,
            1,
            pairs(labels@.len(), predictions@.len()),
        ),
        t.misses == met(labels@, predictions@, 1, 0, pairs(labels@.len(), predictions@.len())),
        t.hits + t.false_alarms + t.misses <= labels@.len(),
{
    let mut t = Tally { hits: 0, false_alarms: 0, misses: 0 };
    let mut i: usize = 0;
    while i < labels.len() && i < predictions.len()
        invariant
            i <= labels@.len(),
            i <= predictions@.len(),
            t.hits == met(labels@, predictions@, 1, 1, i as nat),
            t.false_alarms == met(labels@, predictions@, 0, 1, i as nat),
            t.misses == met(labels@, predictions@, 1, 0, i as nat),
            t.hits + t.false_alarms + t.misses <= i,
        decreases labels@.len() - i,
    {
        let (l, p) = (labels[i], predictions[i]);
        if l == 1 && p == 1 {
            t.hits = t.hits + 1;
        } else if l == 0 && p == 1 {
            t.false_alarms = t.false_alarms + 1;
        } else if l == 1 && p == 0 {
            t.misses = t.misses + 1;
        }
        i += 1;
    }
    t
}

/// Whether `r` is the F1 score of predictions: twice the hits among twice the hits, the false
/// alarms and the misses; zero when there are none of these.
pub open spec fn is_f1<V: Vectors>(
    vectors: &V,
    labels: Seq<i64>,
    predictions: Seq<i64>,
    r: Scalar,
) -> bool {
    let n = pairs(labels.len(), predictions.len());
    let twice = 2 * met(labels, predictions, 1, 1, n);
    let whole = twice + met(labels, predictions, 0, 1, n) + met(labels, predictions, 1, 0, n);
    if whole == 0 {
        r.pattern() == 0
    } else {
        vectors::is_ratio(vectors, twice as u128, whole as u128, r)
    }
}

/// F1 score for the anomaly class; zero when nothing was or should have been flagged.
pub fn f1<V: Vectors>(labels: &Vec<i64>, predictions: &Vec<i64>, vectors: &V) -> (r: Scalar)
    ensures
        is_f1(vectors, labels@, predictions@, r),
{
    let n = labels.len();
    let t = tally(labels, predictions);
    let twice = 2 * t.hits;
    let whole = twice + t.false_alarms + t.misses;
    if whole == 0 {
        Scalar::zero()
    } else {
        vectors.ratio(twice, whole)
    }
}

/// The objective of an anomaly search: the F1 of a detector.
#[derive(Debug)]
pub struct AnomalyObjective<V> {
    reference: Vec<Vec<Scalar>>,
    eval: Vec<Vec<Scalar>>,
    labels: Vec<i64>,
    vectors: V,
}

/// What an [`AnomalyObjective`] stands for in contracts.
pub struct AnomalyTask<V> {
    /// The reference points.
    pub reference: Seq<Vec<Scalar>>,
    /// The evaluation points.
    pub eval: Seq<Vec<Scalar>>,
    /// The labels of the evaluation points.
    pub labels: Seq<i64>,
    /// Who is asked for arithmetic on vectors.
    pub vectors: V,
}

impl<V> View for AnomalyObjective<V> {
    type V = AnomalyTask<V>;

    closed spec fn view(&self) -> AnomalyTask<V> {
        AnomalyTask {
            reference: self.reference@,
            eval: self.eval@,
            labels: self.labels@,
            vectors: self.vectors,
        }
    }
}

impl<V: Vectors> AnomalyTask<V> {
    /// Whether `value` is the F1 of a detector with `k` neighbours and a threshold at the
    /// `q`-quantile of the scores.
    pub open spec fn achieves(self, k: i64, q: Scalar, value: Scalar) -> bool {
        exists|scores: Seq<Scalar>, threshold: Scalar| #[trigger]
            are_scores(&self.vectors, self.reference, self.eval, k as usize, scores)
                && #[trigger] is_quantile(&self.vectors, scores, q, threshold) && is_f1(
                &self.vectors,
                self.labels,
                flagged(scores, threshold),
                value,
            )
    }
}

impl<V: Vectors + Clone> Objective for AnomalyObjective<V> {
    open spec fn allows(
        &self,
        params: Assignment,
        reports: ReportLog,
        stopped: bool,
        outcome: Outcome,
    ) -> bool {
        reports == Seq::<(u64, Metrics)>::empty() && match (
            param::integer_in(params, "k"@),
            param::float_in(params, "threshold_quantile"@),
        ) {
            (Some(k), Some(q)) => outcome matches Ok(m) && m.dom() == set!["f1"@]
                && self@.achieves(k, q, m["f1"@]),
            (None, _) => outcome matches Err(e) && param::is_refusal(e, params, "k"@, "int"@),
            _ => outcome matches Err(e) && param::is_refusal(
                e,
                params,
                "threshold_quantile"@,
                "float"@,
            ),
        }
    }

    fn evaluate<K: ReportSink>(&self, params: &ParamSet, report: &mut K) -> (r: Result<
        NamedMetrics,
        Error,
    >) {
        proof {
            let none = Seq::<(u64, Metrics)>::empty();
            assert(report.log() + none =~= report.log());
            assert(objective::log_grows(report.log(), none, report.log()));
        }
        let k = match params.integer("k") {
            Ok(k) => k,
            Err(e) => {
                return Err(e);
            },
        };
        let q = match params.float("threshold_quantile") {
            Ok(q) => q,
            Err(e) => {
                return Err(e);
            },
        };
        let scores = knn_anomaly_scores(&self.reference, &self.eval, k as usize, &self.vectors);
        let threshold = quantile(&scores, q, &self.vectors);
        let predictions = flag(&scores, threshold);
        let value = f1(&self.labels, &predictions, &self.vectors);
        let m = NamedMetrics::single("f1", value);
        proof {
            assert(m@.dom() =~= set!["f1"@]);
            assert(predictions@ =~= flagged(scores@, threshold));
            let task = self@;
            assert(are_scores(&task.vectors, task.reference, task.eval, k as usize, scores@));
            assert(is_quantile(&task.vectors, scores@, q, threshold));
            assert(is_f1(&task.vectors, task.labels, flagged(scores@, threshold), value));
            assert(self@.achieves(k, q, value));
        }
        Ok(m)
    }
}

/// One-call anomaly-detector search: jointly searches the neighbour count and the score
/// threshold, maximizing F1 on a labelled evaluation set.
#[derive(Debug)]
pub struct AutoAnomaly {
    reference: Vec<Vec<Scalar>>,
    eval: Vec<Vec<Scalar>>,
    eval_labels: Vec<i64>,
    max_k: usize,
    trials: u64,
    seed: u64,
}

/// What an [`AutoAnomaly`] stands for in contracts.
pub struct AnomalyModel {
    /// The reference points.
    pub reference: Seq<Vec<Scalar>>,
    /// The evaluation points.
    pub eval: Seq<Vec<Scalar>>,
    /// The labels of the evaluation points.
    pub labels: Seq<i64>,
    /// The largest neighbour count.
    pub max_k: usize,
    /// Search trials.
    pub trials: u64,
    /// The seed.
    pub seed: u64,
}

impl View for AutoAnomaly {
    type V = AnomalyModel;

    closed spec fn view(&self) -> AnomalyModel {
        AnomalyModel {
            reference: self.reference@,
            eval: self.eval@,
            labels: self.eval_labels@,
            max_k: self.max_k,
            trials: self.trials,
            seed: self.seed,
        }
    }
}

impl AnomalyModel {
    /// Whether there is something to search with: a reference set and a labelled evaluation set.
    pub open spec fn usable(self) -> bool {
        self.reference.len() > 0 && self.eval.len() == self.labels.len() && self.eval.len() > 0
    }

    /// The greatest number of neighbors that is tried.
    pub open spec fn most(self) -> int {
        let n = if self.max_k < self.reference.len() {
            self.max_k as int
        } else {
            self.reference.len() as int
        };
        if n < 1 {
            1
        } else {
            n
        }
    }

    /// What is searched: the number of neighbors and the quantile that flags an anomaly.
    pub open spec fn searches(self) -> space::SpaceModel {
        let quantiles = Bounds {
            low: Scalar { bits: 0x3fe0_0000_0000_0000 },
            high: Scalar { bits: 0x3fef_f7ce_d916_872b },
            floor: Scalar { bits: 0x3fdf_ffff_feed_1f41 },
            ceiling: Scalar { bits: 0x3fef_f7ce_d99f_f78a },
        };
        seq![
            space::free(
                "k"@,
                DistModel::Int { low: 1, high: self.most() as i64, log: false, step: 1 },
            ),
            space::free(
                "threshold_quantile"@,
                DistModel::Float { bounds: quantiles, log: false, step: None },
            ),
        ]
    }
}

impl AutoAnomaly {
    /// Build a search from a reference set (assumed mostly normal) and a labelled evaluation
    /// set (`0` normal, `1` anomaly).
    pub fn new(reference: Vec<Vec<Scalar>>, eval: Vec<Vec<Scalar>>, eval_labels: Vec<i64>) -> (a:
        Self)
        ensures
            a@ == (AnomalyModel {
                reference: reference@,
                eval: eval@,
                labels: eval_labels@,
                max_k: 20,
                trials: 20,
                seed: 0,
            }),
    {
        AutoAnomaly { reference, eval, eval_labels, max_k: 20, trials: 20, seed: 0 }
    }

    /// Largest neighbour count the search may use (at least 1).
    pub fn max_k(self, k: usize) -> (a: Self)
        ensures
            a@ == (AnomalyModel {
                max_k: if k < 1 {
                    1
                } else {
                    k
                },
                ..self@
            }),
    {
        let mut a = self;
        a.max_k = if k < 1 {
            1
        } else {
            k
        };
        a
    }

    /// Number of search trials.
    pub fn trials(self, t: u64) -> (a: Self)
        ensures
            a@ == (AnomalyModel { trials: t, ..self@ }),
    {
        let mut a = self;
        a.trials = t;
        a
    }

    /// Seed for the search.
    pub fn seed(self, s: u64) -> (a: Self)
        ensures
            a@ == (AnomalyModel { seed: s, ..self@ }),
    {
        let mut a = self;
        a.seed = s;
        a
    }

    /// Run the search, returning the study (maximizing F1). The best trial's `k` and
    /// `threshold_quantile` define the detector.
    #[verifier::spinoff_prover]
    pub fn fit<R: Reals, V: Vectors + Clone>(self, reals: R, vectors: V) -> (r: Result<
        Study<InMemoryStorage, TpeSampler, NoPruner, R>,
        Error,
    >)
        requires
            self@.reference.len() <= i64::MAX,
            self@.trials < u64::MAX,
        ensures
            r is Ok <==> self@.usable(),
            match r {
                Ok(s) => s.well_formed() && s.meta().name == "auto-anomaly"@
                    && s.aims() == seq![("f1"@, Direction::Maximize)]
                    && s.searches() == self@.searches() && s.seed() == self@.seed
                    && s.trials().len() == self@.trials && (forall|i: int|
                    0 <= i < s.trials().len() ==> run::settled(#[trigger] s.trials()[i]))
                    && s.rig().reals == reals && exists|
                    o: AnomalyObjective<V>,
                    sampler: TpeSampler,
                | #[trigger]
                    s.searched(o, self@.trials, sampler) && o@ == (AnomalyTask {
                        reference: self@.reference,
                        eval: self@.eval,
                        labels: self@.labels,
                        vectors,
                    }) && sampler@ == tpe::usual("f1"@, Direction::Maximize, self@.seed),
                Err(e) => e matches Error::Objective(m) && m@
                    == "anomaly detector needs a reference set and a labelled eval set"@,
            },
    {
        if self.reference.len() == 0 || self.eval.len() != self.eval_labels.len()
            || self.eval.len() == 0 {
            return Err(
                Error::Objective(
                    "anomaly detector needs a reference set and a labelled eval set".to_owned(),
                ),
            );
        }
        let n = self.reference.len();
        let most: usize = if self.max_k < n {
            self.max_k
        } else {
            n
        };
        let most: usize = if most < 1 {
            1
        } else {
            most
        };
        let quantiles = Bounds {
            low: Scalar::from_bits(0x3fe0_0000_0000_0000),
            high: Scalar::from_bits(0x3fef_f7ce_d916_872b),
            floor: Scalar::from_bits(0x3fdf_ffff_feed_1f41),
            ceiling: Scalar::from_bits(0x3fef_f7ce_d99f_f78a),
        };
        let space = SearchSpace::new().add("k", Distribution::integer(1, most as i64)).add(
            "threshold_quantile",
            Distribution::float(quantiles),
        );
        proof {
            assert(space@ =~= self@.searches());
            two_free_parameters(space@);
        }
        let sampler = TpeSampler::new("f1", Direction::Maximize, self.seed);
        let ghost first = sampler;
        let builder = Study::builder(space, reals).name("auto-anomaly").maximize("f1").sampler(
            sampler,
        ).seed(self.seed);
        let mut study = match builder.build() {
            Ok(s) => s,
            Err(e) => {
                return Err(e);
            },
        };
        let objective = AnomalyObjective {
            reference: self.reference,
            eval: self.eval,
            labels: self.eval_labels,
            vectors,
        };
        let ghost fresh = study.bench();
        proof {
            assert(fresh.trials =~= Seq::<TrialModel>::empty());
            assert(fresh == (Bench { trials: Seq::<TrialModel>::empty(), sampler: first }));
        }
        match study.optimize_n(&objective, self.trials) {
            Ok(_) => {},
            Err(e) => {
                return Err(e);
            },
        }
        proof {
            assert(study.aims() =~= seq![("f1"@, Direction::Maximize)]);
            assert(objective@ == (AnomalyTask {
                reference: self@.reference,
                eval: self@.eval,
                labels: self@.labels,
                vectors,
            }));
            assert(first@ == tpe::usual("f1"@, Direction::Maximize, self@.seed));
            assert(study.searched(objective, self.trials, first));
        }
        Ok(study)
    }
}

/// Two unconditional parameters of different names without defects make a sound space.
proof fn two_free_parameters(defs: space::SpaceModel)
    requires
        defs.len() == 2,
        defs[0].name == "k"@,
        defs[1].name == "threshold_quantile"@,
        defs[0].condition is None,
        defs[1].condition is None,
        defs[0].dist.drawable(),
        defs[1].dist.drawable(),
    ensures
        space::space_sound(defs),
        space::drawable_space(defs),
{
    reveal_strlit("k");
    reveal_strlit("threshold_quantile");
    assert("k"@.len() != "threshold_quantile"@.len());
    assert forall|i: int| 0 <= i < defs.len() implies #[trigger] space::def_sound(defs, i) by {
        if i == 1 {
            assert(!space::declared_before(defs, 1, defs[1].name));
        }
    }
}

/// Labels and predictions side by side.
pub open spec fn paired(labels: Seq<i64>, predictions: Seq<i64>) -> Seq<(i64, i64)> {
    Seq::new(pairs(labels.len(), predictions.len()), |i: int| (labels[i], predictions[i]))
}

/// Tells a label with a prediction.
pub open spec fn came_out(label: i64, prediction: i64) -> spec_fn((i64, i64)) -> bool {
    |p: (i64, i64)| p == (label, prediction)
}

proof fn met_are_counted(
    labels: Seq<i64>,
    predictions: Seq<i64>,
    label: i64,
    prediction: i64,
    n: nat,
)
    requires
        n <= pairs(labels.len(), predictions.len()),
    ensures
        met(labels, predictions, label, prediction, n) == paired(labels, predictions).take(
            n as int,
        ).filter(came_out(label, prediction)).len(),
    decreases n,
{
    reveal(Seq::filter);
    let all = paired(labels, predictions);
    if n > 0 {
        met_are_counted(labels, predictions, label, prediction, (n - 1) as nat);
        assert(all.take(n as int).drop_last() =~= all.take(n - 1));
        assert(all.take(n as int).last() == (labels[n - 1], predictions[n - 1]));
    }
}

/// The F1 score is twice the anomalies that were flagged, out of these and all that were flagged
/// wrongly or missed; zero where there are none of any.
pub proof fn law_f1_weighs_hits_against_mistakes<V: Vectors>(
    vectors: &V,
    labels: Seq<i64>,
    predictions: Seq<i64>,
    r: Scalar,
)
    requires
        is_f1(vectors, labels, predictions, r),
    ensures
        ({
            let all = paired(labels, predictions);
            let hits = all.filter(came_out(1, 1)).len();
            let alarms = all.filter(came_out(0, 1)).len();
            let misses = all.filter(came_out(1, 0)).len();
            if hits + alarms + misses == 0 {
                r.pattern() == 0
            } else {
                call_ensures(
                    V::ratio,
                    (vectors, (2 * hits) as u128, (2 * hits + alarms + misses) as u128),
                    r,
                )
            }
        }),
{
    let n = pairs(labels.len(), predictions.len());
    let all = paired(labels, predictions);
    assert(all.take(n as int) =~= all);
    met_are_counted(labels, predictions, 1, 1, n);
    met_are_counted(labels, predictions, 0, 1, n);
    met_are_counted(labels, predictions, 1, 0, n);
}

/// The nearest are the nearest: each of them is a distance, and fewer than it has before it lie
/// below; there are as many as are asked for, at least one, as far as there are any.
pub proof fn law_nearest_are_the_least(distances: Seq<Scalar>, k: usize, near: Seq<Scalar>, i: int)
    requires
        is_nearest(distances, k, near),
        0 <= i < near.len(),
    ensures
        distances.contains(near[i]),
        distances.filter(order::known_below(near[i])).len() <= i,
        near.len() == k || (k == 0 && near.len() == 1) || (near.len() < k && near.len()
            == distances.filter(order::known()).len()),
{
    let sorted = choose|sorted: Seq<Scalar>| #[trigger]
        order::is_ascending(order::numbers(distances), sorted) && near == sorted.take(
            neighbours(k, sorted.len() as int),
        );
    assert(near[i] == sorted[i]);
    order::law_places_are_ranks(distances, sorted, i);
}

/// A quantile has the rank that it is asked for: at most so many numbers lie below it, and more
/// lie at it or below; it is one of the numbers.
pub proof fn law_quantiles_have_their_rank<V: Vectors>(
    vectors: &V,
    values: Seq<Scalar>,
    q: Scalar,
    x: Scalar,
)
    requires
        is_quantile(vectors, values, q, x),
        values.filter(order::known()).len() > 0,
        values.len() <= usize::MAX,
    ensures
        values.contains(x),
        exists|rank: usize|
            #[trigger] vectors::is_rank(
                vectors,
                q,
                values.filter(order::known()).len() as usize,
                rank,
            ) && values.filter(order::known_below(x)).len() <= rank && (values.filter(
                order::known_above(x),
            ).len() == 0 || values.filter(order::known_above(x)).len() + rank < values.filter(
                order::known(),
            ).len()),
{
    models::picked_as_many(values, order::if_number(), order::known());
    let n = order::numbers(values).len();
    let rank = choose|rank: usize| #[trigger]
        vectors::is_rank(vectors, q, n as usize, rank) && is_ranked(values, rank, x);
    let sorted = choose|sorted: Seq<Scalar>| #[trigger]
        order::is_ascending(order::numbers(values), sorted) && sorted.len() > 0 && x == sorted[if rank
            < sorted.len() {
            rank as int
        } else {
            sorted.len() - 1
        }];
    let i = if rank < sorted.len() {
        rank as int
    } else {
        sorted.len() - 1
    };
    order::law_places_are_ranks(values, sorted, i);
}

/// What lies beyond the threshold is flagged, and nothing else is.
pub proof fn law_what_lies_beyond_is_flagged(scores: Seq<Scalar>, threshold: Scalar, i: int)
    requires
        0 <= i < scores.len(),
    ensures
        flagged(scores, threshold)[i] == 1 <==> threshold.less(scores[i]),
        flagged(scores, threshold)[i] == 0 <==> !threshold.less(scores[i]),
{
}

} // verus!
