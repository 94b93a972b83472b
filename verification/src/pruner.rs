//! Pruners: early-stopping decisions for running trials.
//!
//! Median pruning compares a running trial's latest value against the median of completed
//! trials at the same step; successive halving keeps only the top fraction of the trials that reach
//! each rung; the multi-objective pruner drops a trial dominated by a majority of its peers.

use vstd::prelude::*;
use crate::named::Named;
use crate::metrics::{Direction, Objective, ObjectiveModel};
use crate::order::{middle_of, Middle};
use crate::pareto::ParetoFront;
use crate::reals::Reals;
use crate::scalar::Scalar;
use crate::trial::{HistoryModel, Metrics, ReportModel, TrialHistory, TrialProgress};
#[allow(unused_imports)]
use crate::trial::{TrialModel, TrialState};
#[allow(unused_imports)]
use crate::models;
#[allow(unused_imports)]
use crate::order;
#[allow(unused_imports)]
use crate::pareto;
#[allow(unused_imports)]
use crate::reals;
#[allow(unused_imports)]
use crate::trial;

verus! {

/// Decides whether a running trial should be terminated early.
pub trait Pruner<R: Reals>: Named {
    /// Whether `asked` may be the verdict on a trial with these reports in a history, where
    /// averages are asked of `reals`.
    spec fn judges(
        &self,
        reals: &R,
        reports: Seq<ReportModel>,
        history: HistoryModel,
        asked: bool,
    ) -> bool;

    /// Return true to prune (stop) the trial described by `trial`.
    fn should_prune(
        &self,
        trial: &TrialProgress,
        history: &TrialHistory,
        reals: &R,
    ) -> (r: bool)
        ensures
            self.judges(reals, trial.reports(), history@, r),
    ;
}

/// Never prunes. The default when a study opts out of early stopping.
#[derive(Debug, Clone, Copy, Default)]
pub struct NoPruner;

impl Named for NoPruner {
    open spec fn label(&self) -> Seq<char> {
        "none"@
    }

    fn name(&self) -> (r: &'static str) {
        "none"
    }
}

impl<R: Reals> Pruner<R> for NoPruner {
    open spec fn judges(
        &self,
        reals: &R,
        reports: Seq<ReportModel>,
        history: HistoryModel,
        asked: bool,
    ) -> bool {
        !asked
    }

    fn should_prune(
        &self,
        trial: &TrialProgress,
        history: &TrialHistory,
        reals: &R,
    ) -> (r: bool) {
        false
    }
}

/// The values of `objective` among the last reports that have one, latest first, at most
/// `window` of them.
pub open spec fn recent_values(
    reports: Seq<ReportModel>,
    objective: Seq<char>,
    window: nat,
) -> Seq<Scalar>
    decreases reports.len(),
{
    if reports.len() == 0 || window == 0 {
        Seq::empty()
    } else {
        match trial::value_in(Some(reports.last().metrics), objective) {
            Some(v) => seq![v] + recent_values(
                reports.drop_last(),
                objective,
                (window - 1) as nat,
            ),
            None => recent_values(reports.drop_last(), objective, window),
        }
    }
}

/// Whether `m` is the median of the numbers among `values`: the one in the middle, or the average
/// of the two.
pub open spec fn is_median<R: Reals>(
    reals: &R,
    values: Seq<Scalar>,
    m: Option<Scalar>,
) -> bool {
    exists|mid: Middle| #[trigger]
        order::is_middle(values, mid) && match mid {
            Middle::Nothing => m is None,
            Middle::One(x) => m == Some(x),
            Middle::Two(a, b) => m matches Some(x) && reals::is_midpoint(reals, a, b, x),
        }
}

/// Median pruner: prune a trial whose latest value is worse than the median of completed trials
/// at the same step.
#[derive(Debug)]
pub struct MedianPruner {
    objective: String,
    direction: Direction,
    warmup_steps: u64,
    min_trials: usize,
    robust_window: usize,
}

/// What a [`MedianPruner`] stands for in contracts.
pub struct MedianModel {
    /// Which reported metric is compared.
    pub objective: Seq<char>,
    /// Which way is better.
    pub direction: Direction,
    /// Never prune before this step.
    pub warmup_steps: u64,
    /// Require at least this many peers at the step.
    pub min_trials: usize,
    /// How many of the latest values are smoothed.
    pub robust_window: usize,
}

impl View for MedianPruner {
    type V = MedianModel;

    closed spec fn view(&self) -> MedianModel {
        MedianModel {
            objective: self.objective@,
            direction: self.direction,
            warmup_steps: self.warmup_steps,
            min_trials: self.min_trials,
            robust_window: self.robust_window,
        }
    }
}

impl MedianModel {
    /// The values that the trial is judged by.
    pub open spec fn own(self, reports: Seq<ReportModel>) -> Seq<Scalar> {
        recent_values(reports, self.objective, self.robust_window as nat)
    }

    /// The values of its peers at its last step.
    pub open spec fn peers(self, reports: Seq<ReportModel>, history: HistoryModel) -> Seq<Scalar> {
        models::pick(history, trial::completed_value_at(reports.last().step, self.objective))
    }

    /// Whether the trial is ripe for a verdict.
    pub open spec fn ripe(self, reports: Seq<ReportModel>, history: HistoryModel) -> bool {
        &&& reports.len() > 0
        &&& reports.last().step >= self.warmup_steps
        &&& self.peers(reports, history).len() >= self.min_trials
    }
}

impl MedianPruner {
    /// Construct a median pruner for a named objective and direction.
    pub fn new(objective: &str, direction: Direction) -> (p: Self)
        ensures
            p@ == (MedianModel {
                objective: objective@,
                direction,
                warmup_steps: 1,
                min_trials: 1,
                robust_window: 1,
            }),
    {
        MedianPruner {
            objective: objective.to_owned(),
            direction,
            warmup_steps: 1,
            min_trials: 1,
            robust_window: 1,
        }
    }

    /// Set the number of warmup steps before pruning may occur.
    pub fn with_warmup_steps(self, steps: u64) -> (p: Self)
        ensures
            p@ == (MedianModel { warmup_steps: steps, ..self@ }),
    {
        let mut p = self;
        p.warmup_steps = steps;
        p
    }

    /// Set the minimum number of prior observations required to prune.
    pub fn with_min_trials(self, n: usize) -> (p: Self)
        ensures
            p@ == (MedianModel { min_trials: n, ..self@ }),
    {
        let mut p = self;
        p.min_trials = n;
        p
    }

    /// Compare the median of the trial's last `window` reported values against its peers,
    /// instead of its single latest value, so that a lucky or unlucky spike does not decide. A
    /// window of 1 (the default) is the ordinary latest-value behavior.
    pub fn with_robust_window(self, window: usize) -> (p: Self)
        ensures
            p@ == (MedianModel {
                robust_window: if window == 0 {
                    1
                } else {
                    window
                },
                ..self@
            }),
    {
        let mut p = self;
        p.robust_window = if window == 0 {
            1
        } else {
            window
        };
        p
    }

    /// Median of a list (ignoring NaNs); `None` when no number is left.
    fn median<R: Reals>(values: &Vec<Scalar>, reals: &R) -> (m: Option<Scalar>)
        ensures
            is_median(reals, values@, m),
            m is None <==> order::numbers(values@).len() == 0,
    {
        let mid = middle_of(values);
        proof {
            assert(order::is_middle(values@, mid));
        }
        match mid {
            Middle::Nothing => None,
            Middle::One(x) => Some(x),
            Middle::Two(a, b) => Some(reals.midpoint(a, b)),
        }
    }

    /// The latest values of the objective, newest first, at most as many as the window.
    pub fn recent(&self, trial: &TrialProgress) -> (v: Vec<Scalar>)
        ensures
            v@ == self@.own(trial.reports()),
    {
        let mut out: Vec<Scalar> = Vec::new();
        let reports = trial.intermediate;
        let mut i: usize = reports.len();
        let ghost all = trial.reports();
        proof {
            assert(all.take(i as int) =~= all);
        }
        while i > 0 && out.len() < self.robust_window
            invariant
                i <= reports@.len(),
                reports@ == trial.intermediate@,
                all == trial.reports(),
                out@.len() <= self@.robust_window,
                self@.own(all) == out@ + recent_values(
                    all.take(i as int),
                    self@.objective,
                    (self@.robust_window - out@.len()) as nat,
                ),
            decreases i,
        {
            i -= 1;
            let ghost before = out@;
            proof {
                assert(all.take(i + 1).last() == reports@[i as int]@);
                assert(all.take(i + 1).drop_last() =~= all.take(i as int));
            }
            if let Some(v) = reports[i].metrics.get(self.objective.as_str()) {
                out.push(v);
                proof {
                    let rest = recent_values(
                        all.take(i as int),
                        self@.objective,
                        (self@.robust_window - before.len() - 1) as nat,
                    );
                    assert(before + (seq![v] + rest) =~= out@ + rest);
                }
            }
        }
        proof {
            assert(out@ + Seq::<Scalar>::empty() =~= out@);
        }
        out
    }

    /// Prune when the trial's own value is strictly worse than the median of its peers.
    pub fn verdict(&self, current: Scalar, peer_median: Scalar) -> (r: bool)
        ensures
            r == self@.direction.better(peer_median, current),
    {
        self.direction.is_better(peer_median, current)
    }
}

impl MedianModel {
    /// Whether `current` is what a trial is compared by: the median of its latest values, or the
    /// last one.
    pub open spec fn stands_at<R: Reals>(
        self,
        reals: &R,
        reports: Seq<ReportModel>,
        current: Option<Scalar>,
    ) -> bool {
        if self.robust_window > 1 {
            is_median(reals, self.own(reports), current)
        } else {
            current == trial::value_in(Some(reports.last().metrics), self.objective)
        }
    }

    /// Whether `asked` says rightly whether to prune: a trial that is ripe and stands somewhere is
    /// pruned where the median of its peers is better.
    pub open spec fn decides<R: Reals>(
        self,
        reals: &R,
        reports: Seq<ReportModel>,
        history: HistoryModel,
        asked: bool,
    ) -> bool {
        if !self.ripe(reports, history) {
            !asked
        } else {
            exists|current: Option<Scalar>| #[trigger]
                self.stands_at(reals, reports, current) && match current {
                    Some(c) => exists|m: Option<Scalar>| #[trigger]
                        is_median(reals, self.peers(reports, history), m) && asked == (
                        m is Some && self.direction.better(m->0, c)),
                    None => !asked,
                }
        }
    }
}

impl Named for MedianPruner {
    open spec fn label(&self) -> Seq<char> {
        "median"@
    }

    fn name(&self) -> (r: &'static str) {
        "median"
    }
}

impl<R: Reals> Pruner<R> for MedianPruner {
    open spec fn judges(
        &self,
        reals: &R,
        reports: Seq<ReportModel>,
        history: HistoryModel,
        asked: bool,
    ) -> bool {
        self@.decides(reals, reports, history, asked)
    }

    fn should_prune(
        &self,
        trial: &TrialProgress,
        history: &TrialHistory,
        reals: &R,
    ) -> (r: bool) {
        let step = match trial.last_step() {
            Some(s) => s,
            None => {
                return false;
            },
        };
        if step < self.warmup_steps {
            return false;
        }
        let current = if self.robust_window > 1 {
            let recent = self.recent(trial);
            let own = Self::median(&recent, reals);
            proof {
                assert(self@.stands_at(reals, trial.reports(), own));
            }
            match own {
                Some(m) => m,
                None => {
                    return false;
                },
            }
        } else {
            let last = trial.last_value(self.objective.as_str());
            proof {
                assert(self@.stands_at(reals, trial.reports(), last));
            }
            match last {
                Some(v) => v,
                None => {
                    return false;
                },
            }
        };
        proof {
            assert(self@.stands_at(reals, trial.reports(), Some(current)));
        }
        let peers = history.intermediate_values_at(step, self.objective.as_str());
        if peers.len() < self.min_trials {
            return false;
        }
        let m = Self::median(&peers, reals);
        proof {
            assert(is_median(reals, self@.peers(trial.reports(), history@), m));
        }
        match m {
            Some(m) => self.verdict(current, m),
            None => false,
        }
    }
}

/// The `k`-th rung: `min * eta^k`.
pub open spec fn rung(min: int, eta: int, k: nat) -> int
    decreases k,
{
    if k == 0 {
        min
    } else {
        rung(min, eta, (k - 1) as nat) * eta
    }
}

/// Whether `step` is exactly a rung.
pub open spec fn on_rung(min: int, eta: int, step: int) -> bool {
    exists|k: nat| #[trigger] rung(min, eta, k) == step
}

/// Rungs grow strictly.
pub proof fn rungs_grow(min: int, eta: int, j: nat, k: nat)
    requires
        min >= 1,
        eta >= 2,
        j < k,
    ensures
        1 <= rung(min, eta, j),
        rung(min, eta, j) * eta <= rung(min, eta, k),
        rung(min, eta, j) < rung(min, eta, k),
    decreases k,
{
    if j + 1 < k {
        rungs_grow(min, eta, j, (k - 1) as nat);
        let a = rung(min, eta, (k - 1) as nat);
        assert(a * eta >= a) by (nonlinear_arith)
            requires
                a >= 1,
                eta >= 2,
        ;
    } else {
        rung_is_positive(min, eta, j);
        let a = rung(min, eta, j);
        assert(a * eta > a) by (nonlinear_arith)
            requires
                a >= 1,
                eta >= 2,
        ;
    }
    rung_is_positive(min, eta, j);
}

proof fn rung_is_positive(min: int, eta: int, k: nat)
    requires
        min >= 1,
        eta >= 2,
    ensures
        rung(min, eta, k) >= 1,
    decreases k,
{
    if k > 0 {
        rung_is_positive(min, eta, (k - 1) as nat);
        let a = rung(min, eta, (k - 1) as nat);
        assert(a * eta >= 1) by (nonlinear_arith)
            requires
                a >= 1,
                eta >= 2,
        ;
    }
}

/// Selects values better than `current`.
pub open spec fn if_better(d: Direction, current: Scalar) -> spec_fn(Scalar) -> Option<Scalar> {
    |v: Scalar|
        if d.better(v, current) {
            Some(v)
        } else {
            None
        }
}

/// Asynchronous successive halving pruner.
///
/// Rungs of resource are `min_resource * eta^k`. When a trial reaches a rung it is kept only if
/// it ranks in the top `1/eta` of the trials that have reached that same rung. Between rungs the
/// pruner never stops a trial.
#[derive(Debug)]
pub struct AshaPruner {
    objective: String,
    direction: Direction,
    min_resource: u64,
    reduction_factor: u64,
}

/// What an [`AshaPruner`] stands for in contracts.
pub struct AshaModel {
    /// Which reported metric is compared.
    pub objective: Seq<char>,
    /// Which way is better.
    pub direction: Direction,
    /// The first rung's resource level.
    pub min_resource: u64,
    /// The rung spacing and inverse promotion fraction.
    pub reduction_factor: u64,
}

impl View for AshaPruner {
    type V = AshaModel;

    closed spec fn view(&self) -> AshaModel {
        AshaModel {
            objective: self.objective@,
            direction: self.direction,
            min_resource: self.min_resource,
            reduction_factor: self.reduction_factor,
        }
    }
}

impl AshaModel {
    /// The pruning rule.
    pub open spec fn prunes(self, reports: Seq<ReportModel>, history: HistoryModel) -> bool {
        let peers = models::pick(
            history,
            trial::settled_value_at(reports.last().step, self.objective),
        );
        let n = peers.len() + 1;
        let kept = n as int / self.reduction_factor as int;
        reports.len() > 0 && on_rung(
            self.min_resource as int,
            self.reduction_factor as int,
            reports.last().step as int,
        ) && (trial::value_in(Some(reports.last().metrics), self.objective) matches Some(current)
            && n >= self.reduction_factor && models::pick(
            peers,
            if_better(self.direction, current),
        ).len() >= kept)
    }
}

impl AshaPruner {
    #[verifier::type_invariant]
    spec fn rungs_are_spaced(self) -> bool {
        self.min_resource >= 1 && self.reduction_factor >= 2
    }

    /// Construct a pruner whose first rung is 1 and whose reduction factor is 3.
    pub fn new(objective: &str, direction: Direction) -> (p: Self)
        ensures
            p@ == (AshaModel {
                objective: objective@,
                direction,
                min_resource: 1,
                reduction_factor: 3,
            }),
    {
        AshaPruner {
            objective: objective.to_owned(),
            direction,
            min_resource: 1,
            reduction_factor: 3,
        }
    }

    /// Set the first rung's resource level (default 1).
    pub fn with_min_resource(self, min_resource: u64) -> (p: Self)
        ensures
            p@ == (AshaModel {
                min_resource: if min_resource == 0 {
                    1
                } else {
                    min_resource
                },
                ..self@
            }),
    {
        proof {
            use_type_invariant(&self);
        }
        AshaPruner {
            objective: self.objective,
            direction: self.direction,
            min_resource: if min_resource == 0 {
                1
            } else {
                min_resource
            },
            reduction_factor: self.reduction_factor,
        }
    }

    /// Set the reduction factor (default 3; clamped to at least 2).
    pub fn with_reduction_factor(self, eta: u64) -> (p: Self)
        ensures
            p@ == (AshaModel {
                reduction_factor: if eta < 2 {
                    2
                } else {
                    eta
                },
                ..self@
            }),
    {
        proof {
            use_type_invariant(&self);
        }
        AshaPruner {
            objective: self.objective,
            direction: self.direction,
            min_resource: self.min_resource,
            reduction_factor: if eta < 2 {
                2
            } else {
                eta
            },
        }
    }

    /// Whether `step` is exactly a rung level `min_resource * eta^k`.
    pub fn is_rung(&self, step: u64) -> (r: bool)
        ensures
            r == on_rung(
                self@.min_resource as int,
                self@.reduction_factor as int,
                step as int,
            ),
    {
        proof {
            use_type_invariant(self);
        }
        let ghost min = self.min_resource as int;
        let ghost eta = self.reduction_factor as int;
        if step < self.min_resource {
            proof {
                if on_rung(min, eta, step as int) {
                    let k = choose|k: nat| #[trigger] rung(min, eta, k) == step as int;
                    if k > 0 {
                        rungs_grow(min, eta, 0, k);
                    }
                }
            }
            return false;
        }
        let mut level: u64 = self.min_resource;
        let ghost mut k: nat = 0;
        loop
            invariant
                min == self.min_resource,
                eta == self.reduction_factor,
                min >= 1,
                eta >= 2,
                level == rung(min, eta, k),
                1 <= level <= step,
            decreases step - level,
        {
            if level == step {
                proof {
                    assert(rung(min, eta, k) == step);
                }
                return true;
            }
            proof {
                let (l, s, e) = (level as int, step as int, eta);
                assert(l > s / e ==> l * e > s) by (nonlinear_arith)
                    requires
                        e >= 2,
                        s >= 0,
                ;
                assert(l <= s / e ==> l * e <= s) by (nonlinear_arith)
                    requires
                        e >= 2,
                        s >= 0,
                ;
            }
            if level > step / self.reduction_factor {
                proof {
                    if on_rung(min, eta, step as int) {
                        let j = choose|j: nat| #[trigger] rung(min, eta, j) == step as int;
                        if j < k {
                            rungs_grow(min, eta, j, k);
                        } else if j > k {
                            rungs_grow(min, eta, k, j);
                        }
                    }
                }
                return false;
            }
            proof {
                rungs_grow(min, eta, k, k + 1);
                k = k + 1;
            }
            level = level * self.reduction_factor;
        }
    }
}

impl Named for AshaPruner {
    open spec fn label(&self) -> Seq<char> {
        "asha"@
    }

    fn name(&self) -> (r: &'static str) {
        "asha"
    }
}

impl<R: Reals> Pruner<R> for AshaPruner {
    open spec fn judges(
        &self,
        reals: &R,
        reports: Seq<ReportModel>,
        history: HistoryModel,
        asked: bool,
    ) -> bool {
        asked == self@.prunes(reports, history)
    }

    fn should_prune(
        &self,
        trial: &TrialProgress,
        history: &TrialHistory,
        reals: &R,
    ) -> (r: bool) {
        proof {
            use_type_invariant(self);
        }
        let step = match trial.last_step() {
            Some(s) => s,
            None => {
                return false;
            },
        };
        if !self.is_rung(step) {
            return false;
        }
        let current = match trial.last_value(self.objective.as_str()) {
            Some(v) => v,
            None => {
                return false;
            },
        };
        let peers = history.settled_values_at(step, self.objective.as_str());
        let ghost f = if_better(self.direction, current);
        let mut better: usize = 0;
        let mut i: usize = 0;
        while i < peers.len()
            invariant
                i <= peers@.len(),
                f == if_better(self.direction, current),
                better == models::pick(peers@.take(i as int), f).len(),
                better <= i,
            decreases peers@.len() - i,
        {
            proof {
                models::pick_step(peers@, i as int, f);
            }
            if self.direction.is_better(peers[i], current) {
                better += 1;
            }
            i += 1;
        }
        proof {
            models::pick_whole(peers@, f);
        }
        let n: u128 = peers.len() as u128 + 1;
        if n < self.reduction_factor as u128 {
            return false;
        }
        let keep: u128 = n / self.reduction_factor as u128;
        better as u128 >= keep
    }
}

/// Selects metrics that dominate `current`.
pub open spec fn if_dominating(
    objectives: Seq<ObjectiveModel>,
    current: Metrics,
) -> spec_fn(Metrics) -> Option<Metrics> {
    |p: Metrics|
        if pareto::has_all(objectives, p) && pareto::has_all(objectives, current)
            && pareto::dominates_on(
            objectives,
            pareto::values_of(objectives, p),
            pareto::values_of(objectives, current),
        ) {
            Some(p)
        } else {
            None
        }
}

/// Multi-objective pruner using non-domination against peers: a running trial is pruned when, at
/// the current step, a majority of the peers that reached the same step dominate it.
#[derive(Debug)]
pub struct MultiObjectivePruner {
    front: ParetoFront,
    warmup_steps: u64,
    min_trials: usize,
}

/// What a [`MultiObjectivePruner`] stands for in contracts.
pub struct MultiModel {
    /// The objectives that dominance is judged by.
    pub objectives: Seq<ObjectiveModel>,
    /// Never prune before this step.
    pub warmup_steps: u64,
    /// Require at least this many peers at the step.
    pub min_trials: usize,
}

impl View for MultiObjectivePruner {
    type V = MultiModel;

    closed spec fn view(&self) -> MultiModel {
        MultiModel {
            objectives: self.front.ranks_by(),
            warmup_steps: self.warmup_steps,
            min_trials: self.min_trials,
        }
    }
}

impl MultiModel {
    /// The pruning rule: strictly more than half of the peers dominate.
    pub open spec fn prunes(self, reports: Seq<ReportModel>, history: HistoryModel) -> bool {
        let last = reports.last();
        let peers = models::pick(history, trial::settled_metrics_at(last.step));
        let dominating = models::pick(peers, if_dominating(self.objectives, last.metrics));
        &&& reports.len() > 0
        &&& last.step >= self.warmup_steps
        &&& peers.len() >= self.min_trials
        &&& dominating.len() * 2 > peers.len()
    }
}

impl MultiObjectivePruner {
    /// Construct a multi-objective pruner over the study's objectives.
    pub fn new(objectives: Vec<Objective>) -> (p: Self)
        ensures
            p@ == (MultiModel {
                objectives: models::of(objectives@),
                warmup_steps: 1,
                min_trials: 1,
            }),
    {
        MultiObjectivePruner { front: ParetoFront::new(objectives), warmup_steps: 1, min_trials: 1 }
    }

    /// Set the number of warmup steps before pruning may occur.
    pub fn with_warmup_steps(self, steps: u64) -> (p: Self)
        ensures
            p@ == (MultiModel { warmup_steps: steps, ..self@ }),
    {
        let mut p = self;
        p.warmup_steps = steps;
        p
    }

    /// Set the minimum number of peer observations required before pruning.
    pub fn with_min_trials(self, n: usize) -> (p: Self)
        ensures
            p@ == (MultiModel { min_trials: n, ..self@ }),
    {
        let mut p = self;
        p.min_trials = n;
        p
    }
}

impl Named for MultiObjectivePruner {
    open spec fn label(&self) -> Seq<char> {
        "multi-objective"@
    }

    fn name(&self) -> (r: &'static str) {
        "multi-objective"
    }
}

impl<R: Reals> Pruner<R> for MultiObjectivePruner {
    open spec fn judges(
        &self,
        reals: &R,
        reports: Seq<ReportModel>,
        history: HistoryModel,
        asked: bool,
    ) -> bool {
        asked == self@.prunes(reports, history)
    }

    fn should_prune(
        &self,
        trial: &TrialProgress,
        history: &TrialHistory,
        reals: &R,
    ) -> (r: bool) {
        let step = match trial.last_step() {
            Some(s) => s,
            None => {
                return false;
            },
        };
        if step < self.warmup_steps {
            return false;
        }
        let current = match trial.last_metrics() {
            Some(m) => m,
            None => {
                return false;
            },
        };
        let peers = history.intermediate_metrics_at(step);
        if peers.len() < self.min_trials {
            return false;
        }
        let ghost pm = models::of(peers@);
        let ghost f = if_dominating(self@.objectives, current@);
        let mut dominated_by: usize = 0;
        let mut i: usize = 0;
        while i < peers.len()
            invariant
                i <= peers@.len(),
                pm == models::of(peers@),
                f == if_dominating(self@.objectives, current@),
                dominated_by == models::pick(pm.take(i as int), f).len(),
                dominated_by <= i,
            decreases peers@.len() - i,
        {
            proof {
                models::pick_step(pm, i as int, f);
                assert(pm[i as int] == peers@[i as int]@);
            }
            if self.front.dominates(&peers[i], current) {
                dominated_by += 1;
            }
            i += 1;
        }
        proof {
            models::pick_whole(pm, f);
        }
        dominated_by as u128 * 2 > peers.len() as u128
    }
}

/// A trial that no peer dominates is never pruned by dominance.
pub proof fn law_non_dominated_trial_is_kept(
    p: MultiModel,
    reports: Seq<ReportModel>,
    history: HistoryModel,
)
    requires
        reports.len() > 0,
        forall|m: Metrics|
            pareto::has_all(p.objectives, m) && pareto::has_all(
                p.objectives,
                reports.last().metrics,
            ) ==> !#[trigger] pareto::dominates_on(
                p.objectives,
                pareto::values_of(p.objectives, m),
                pareto::values_of(p.objectives, reports.last().metrics),
            ),
    ensures
        !p.prunes(reports, history),
{
    let last = reports.last();
    let peers = models::pick(history, trial::settled_metrics_at(last.step));
    let f = if_dominating(p.objectives, last.metrics);
    let dominating = models::pick(peers, f);
    if dominating.len() > 0 {
        let i = models::pick_origin(peers, f, 0);
    }
}

/// Between rungs, successive halving never stops a trial.
pub proof fn law_asha_waits_for_a_rung(
    p: AshaModel,
    reports: Seq<ReportModel>,
    history: HistoryModel,
)
    requires
        reports.len() > 0,
        !on_rung(
            p.min_resource as int,
            p.reduction_factor as int,
            reports.last().step as int,
        ),
    ensures
        !p.prunes(reports, history),
{
}

/// A trial that beats or matches every peer at its rung is promoted.
pub proof fn law_asha_promotes_the_best(
    p: AshaModel,
    reports: Seq<ReportModel>,
    history: HistoryModel,
    current: Scalar,
)
    requires
        reports.len() > 0,
        p.reduction_factor >= 2,
        trial::value_in(Some(reports.last().metrics), p.objective) == Some(current),
        forall|i: int|
            0 <= i < models::pick(
                history,
                trial::settled_value_at(reports.last().step, p.objective),
            ).len() ==> !p.direction.better(
                #[trigger] models::pick(
                    history,
                    trial::settled_value_at(reports.last().step, p.objective),
                )[i],
                current,
            ),
    ensures
        !p.prunes(reports, history),
{
    let peers = models::pick(
        history,
        trial::settled_value_at(reports.last().step, p.objective),
    );
    let f = if_better(p.direction, current);
    let n = peers.len() as int + 1;
    let e = p.reduction_factor as int;
    if models::pick(peers, f).len() > 0 {
        let i = models::pick_origin(peers, f, 0);
    }
    if n >= e {
        assert(n / e >= 1) by (nonlinear_arith)
            requires
                n >= e,
                e >= 2,
        ;
    }
}

/// The rungs are the first one times the powers of the factor.
pub proof fn law_rungs_are_powers(min: int, eta: int, k: nat)
    ensures
        rung(min, eta, k) == min * vstd::arithmetic::power::pow(eta, k),
    decreases k,
{
    reveal(vstd::arithmetic::power::pow);
    if k > 0 {
        law_rungs_are_powers(min, eta, (k - 1) as nat);
        let p = vstd::arithmetic::power::pow(eta, (k - 1) as nat);
        assert((min * p) * eta == min * (eta * p)) by (nonlinear_arith);
    }
}

/// Whether a trial ended complete or pruned, and had reported a value of `objective` at `step`.
pub open spec fn has_settled_value(step: u64, objective: Seq<char>) -> spec_fn(TrialModel) -> bool {
    |t: TrialModel|
        (t.state == TrialState::Complete || t.state == TrialState::Pruned) && trial::value_in(
            trial::report_at(t.reports, step),
            objective,
        ) is Some
}

/// Whether such a value was better than `current`.
pub open spec fn has_better_settled_value(
    step: u64,
    objective: Seq<char>,
    d: Direction,
    current: Scalar,
) -> spec_fn(TrialModel) -> bool {
    |t: TrialModel|
        (t.state == TrialState::Complete || t.state == TrialState::Pruned) && (trial::value_in(
            trial::report_at(t.reports, step),
            objective,
        ) matches Some(v) && d.better(v, current))
}

/// Successive halving keeps the top share of a rung: a trial stops exactly at a rung that enough
/// trials have reached, counting itself, where so many of them are better that with one more it
/// would be more than one in the reduction factor. A trial without a value goes on.
pub proof fn law_asha_keeps_the_top_share<R: Reals>(
    pruner: AshaPruner,
    reals: &R,
    reports: Seq<ReportModel>,
    history: HistoryModel,
    asked: bool,
)
    requires
        pruner.judges(reals, reports, history, asked),
        pruner@.reduction_factor >= 2,
        reports.len() > 0,
    ensures
        match trial::value_in(Some(reports.last().metrics), pruner@.objective) {
            None => !asked,
            Some(current) => {
                let (step, name) = (reports.last().step, pruner@.objective);
                let eta = pruner@.reduction_factor as int;
                let n = 1 + history.filter(has_settled_value(step, name)).len();
                let better = history.filter(
                    has_better_settled_value(step, name, pruner@.direction, current),
                ).len();
                asked <==> n >= eta && (better + 1) * eta > n && exists|k: nat|
                    step == pruner@.min_resource * #[trigger] vstd::arithmetic::power::pow(eta, k)
            },
        },
{
    if let Some(current) = trial::value_in(Some(reports.last().metrics), pruner@.objective) {
        let (step, name) = (reports.last().step, pruner@.objective);
        let (min, eta) = (pruner@.min_resource as int, pruner@.reduction_factor as int);
        let f = trial::settled_value_at(step, name);
        let (reached, ahead) = (
            has_settled_value(step, name),
            has_better_settled_value(step, name, pruner@.direction, current),
        );
        models::picked_as_many(history, f, reached);
        models::picked_twice(history, f, if_better(pruner@.direction, current), ahead);
        let n = 1 + history.filter(reached).len() as int;
        let better = history.filter(ahead).len() as int;
        assert(better >= n / eta <==> (better + 1) * eta > n) by (nonlinear_arith)
            requires
                eta >= 2,
                n >= 1,
                better >= 0,
        ;
        if on_rung(min, eta, step as int) {
            let k = choose|k: nat| #[trigger] rung(min, eta, k) == step as int;
            law_rungs_are_powers(min, eta, k);
            assert(step == min * vstd::arithmetic::power::pow(eta, k));
        }
        assert forall|k: nat| step == min * #[trigger] vstd::arithmetic::power::pow(
            eta,
            k,
        ) implies on_rung(min, eta, step as int) by {
            law_rungs_are_powers(min, eta, k);
            assert(rung(min, eta, k) == step as int);
        }
    }
}

/// Whether a trial ended complete or pruned, and had reported at `step`.
pub open spec fn has_settled_report(step: u64) -> spec_fn(TrialModel) -> bool {
    |t: TrialModel|
        (t.state == TrialState::Complete || t.state == TrialState::Pruned) && trial::report_at(
            t.reports,
            step,
        ) is Some
}

/// Whether such a report was nowhere worse than `own` and somewhere better.
pub open spec fn has_dominating_report(
    step: u64,
    objectives: Seq<ObjectiveModel>,
    own: Metrics,
) -> spec_fn(TrialModel) -> bool {
    |t: TrialModel|
        (t.state == TrialState::Complete || t.state == TrialState::Pruned) && (trial::report_at(
            t.reports,
            step,
        ) matches Some(m) && (forall|i: int|
            0 <= i < objectives.len() ==> m.contains_key((#[trigger] objectives[i]).name)
                && own.contains_key(objectives[i].name) && !objectives[i].direction.better(
                own[objectives[i].name],
                m[objectives[i].name],
            )) && (exists|i: int|
            0 <= i < objectives.len() && (#[trigger] objectives[i]).direction.better(
                m[objectives[i].name],
                own[objectives[i].name],
            )))
}

/// A multi-objective trial is stopped exactly where, past the warm-up and among enough peers, more
/// than half of those that reported at its step are nowhere worse and somewhere better.
pub proof fn law_majority_of_dominating_peers_stops<R: Reals>(
    pruner: MultiObjectivePruner,
    reals: &R,
    reports: Seq<ReportModel>,
    history: HistoryModel,
    asked: bool,
)
    requires
        pruner.judges(reals, reports, history, asked),
        reports.len() > 0,
    ensures
        ({
            let (step, own) = (reports.last().step, reports.last().metrics);
            let peers = history.filter(has_settled_report(step)).len();
            let dominating = history.filter(
                has_dominating_report(step, pruner@.objectives, own),
            ).len();
            asked <==> step >= pruner@.warmup_steps && peers >= pruner@.min_trials && 2
                * dominating > peers
        }),
{
    let (step, own, objs) = (reports.last().step, reports.last().metrics, pruner@.objectives);
    let (f, g) = (trial::settled_metrics_at(step), if_dominating(objs, own));
    let ahead = has_dominating_report(step, objs, own);
    models::picked_as_many(history, f, has_settled_report(step));
    assert forall|t: TrialModel| #[trigger] ahead(t) <==> (f(t) matches Some(b) && g(b) is Some) by {
        if let Some(m) = f(t) {
            let (a, b) = (pareto::values_of(objs, m), pareto::values_of(objs, own));
            if ahead(t) {
                let i = choose|i: int|
                    0 <= i < objs.len() && (#[trigger] objs[i]).direction.better(
                        m[objs[i].name],
                        own[objs[i].name],
                    );
                assert(a[i] == m[objs[i].name] && b[i] == own[objs[i].name]);
            }
            if g(m) is Some {
                let i = choose|i: int|
                    0 <= i < objs.len() && (#[trigger] objs[i]).direction.better(a[i], b[i]);
                assert(a[i] == m[objs[i].name] && b[i] == own[objs[i].name]);
            }
        }
    }
    models::picked_twice(history, f, g, ahead);
}

/// Without reports nothing stops a trial, whatever its history.
pub proof fn law_nothing_reported_goes_on<R: Reals>(
    median: MedianPruner,
    asha: AshaPruner,
    multi: MultiObjectivePruner,
    reals: &R,
    history: HistoryModel,
    asked: bool,
)
    ensures
        median.judges(reals, Seq::empty(), history, asked) ==> !asked,
        asha.judges(reals, Seq::empty(), history, asked) ==> !asked,
        multi.judges(reals, Seq::empty(), history, asked) ==> !asked,
{
}

/// Whether the average of two numbers lies between them.
pub open spec fn averages_between<R: Reals>(reals: &R) -> bool {
    forall|a: Scalar, b: Scalar, x: Scalar| #[trigger]
        reals::is_midpoint(reals, a, b, x) && !a.nan() && !b.nan() && a.key() <= b.key()
            ==> !x.nan() && a.key() <= x.key() <= b.key()
}

/// Whether a completed trial had reported a value of `objective` at `step` that passes a test.
pub open spec fn has_completed_value(
    step: u64,
    objective: Seq<char>,
    test: spec_fn(Scalar) -> bool,
) -> spec_fn(TrialModel) -> bool {
    |t: TrialModel|
        t.state == TrialState::Complete && (trial::value_in(
            trial::report_at(t.reports, step),
            objective,
        ) matches Some(v) && test(v))
}

/// Whether a value is better than `current`.
pub open spec fn beats(d: Direction, current: Scalar) -> spec_fn(Scalar) -> bool {
    |v: Scalar| d.better(v, current)
}

/// The median of numbers is better than `current` where more than half of them are, and only where
/// at least half of them are.
pub proof fn law_median_is_better_than_half<R: Reals>(
    reals: &R,
    values: Seq<Scalar>,
    m: Option<Scalar>,
    d: Direction,
    current: Scalar,
)
    requires
        averages_between(reals),
        is_median(reals, values, m),
        !current.nan(),
    ensures
        ({
            let n = values.filter(|s: Scalar| !s.nan()).len();
            let better = values.filter(beats(d, current)).len();
            &&& m is None <==> n == 0
            &&& m matches Some(x) ==> (2 * better > n ==> d.better(x, current)) && (d.better(
                x,
                current,
            ) ==> 2 * better >= n)
        }),
{
    let cut = current.key();
    let (below, above) = (
        |s: Scalar| !s.nan() && s.key() < cut,
        |s: Scalar| !s.nan() && s.key() > cut,
    );
    if d == Direction::Minimize {
        models::stricter_tests_keep_fewer(values, beats(d, current), below);
        models::stricter_tests_keep_fewer(values, below, beats(d, current));
    } else {
        models::stricter_tests_keep_fewer(values, beats(d, current), above);
        models::stricter_tests_keep_fewer(values, above, beats(d, current));
    }
    let mid = choose|mid: Middle| #[trigger]
        order::is_middle(values, mid) && match mid {
            Middle::Nothing => m is None,
            Middle::One(x) => m == Some(x),
            Middle::Two(a, b) => m matches Some(x) && reals::is_midpoint(reals, a, b, x),
        };
    order::law_middle_halves_the_numbers(values, mid, cut);
    if let Middle::Two(a, b) = mid {
        order::law_middle_halves_the_numbers(values, mid, b.key());
        assert(a.key() <= b.key());
        assert(reals::is_midpoint(reals, a, b, m->0));
    }
}

/// The median pruner goes by the better half: past the warm-up and among enough completed peers, a
/// trial that more than half of them beat at its step is stopped, and one that fewer than half of
/// them beat goes on.
pub proof fn law_median_spares_the_better_half<R: Reals>(
    pruner: MedianPruner,
    reals: &R,
    reports: Seq<ReportModel>,
    history: HistoryModel,
    asked: bool,
    current: Scalar,
)
    requires
        pruner.judges(reals, reports, history, asked),
        averages_between(reals),
        reports.len() > 0,
        pruner@.robust_window <= 1,
        trial::value_in(Some(reports.last().metrics), pruner@.objective) == Some(current),
        !current.nan(),
    ensures
        ({
            let (step, name) = (reports.last().step, pruner@.objective);
            let peers = history.filter(has_completed_value(step, name, |v: Scalar| true)).len();
            let n = history.filter(has_completed_value(step, name, |v: Scalar| !v.nan())).len();
            let better = history.filter(
                has_completed_value(step, name, beats(pruner@.direction, current)),
            ).len();
            &&& step < pruner@.warmup_steps || peers < pruner@.min_trials ==> !asked
            &&& step >= pruner@.warmup_steps && peers >= pruner@.min_trials && 2 * better > n
                ==> asked
            &&& asked ==> n > 0 && 2 * better >= n
        }),
{
    let (step, name, d) = (reports.last().step, pruner@.objective, pruner@.direction);
    let f = trial::completed_value_at(step, name);
    let values = models::pick(history, f);
    let (any, number) = (|v: Scalar| true, |v: Scalar| !v.nan());
    models::picked_as_many(history, f, has_completed_value(step, name, any));
    models::picked_then_tested(history, f, number, has_completed_value(step, name, number));
    models::picked_then_tested(
        history,
        f,
        beats(d, current),
        has_completed_value(step, name, beats(d, current)),
    );
    models::stricter_tests_keep_fewer(values, beats(d, current), number);
    if pruner@.ripe(reports, history) {
        let m = choose|m: Option<Scalar>| #[trigger]
            is_median(reals, pruner@.peers(reports, history), m) && asked == (m is Some
                && d.better(m->0, current));
        law_median_is_better_than_half(reals, values, m, d, current);
    }
}

/// The latest values of an objective that every report has, newest first.
pub open spec fn latest(reports: Seq<ReportModel>, objective: Seq<char>, window: nat) -> Seq<Scalar> {
    let n = if window < reports.len() {
        window
    } else {
        reports.len()
    };
    Seq::new(n, |i: int| reports[reports.len() - 1 - i].metrics[objective])
}

/// A window looks at the latest values only, and at as many as it is wide.
pub proof fn law_windows_see_the_latest_values(
    reports: Seq<ReportModel>,
    objective: Seq<char>,
    window: nat,
)
    requires
        forall|i: int|
            0 <= i < reports.len() ==> (#[trigger] reports[i]).metrics.contains_key(objective),
    ensures
        recent_values(reports, objective, window) == latest(reports, objective, window),
    decreases reports.len(),
{
    if reports.len() > 0 && window > 0 {
        let head = reports.drop_last();
        assert forall|i: int| 0 <= i < head.len() implies (
        #[trigger] head[i]).metrics.contains_key(objective) by {
            assert(head[i] == reports[i]);
        }
        law_windows_see_the_latest_values(head, objective, (window - 1) as nat);
        let rest = latest(head, objective, (window - 1) as nat);
        assert forall|i: int| 1 <= i < latest(reports, objective, window).len() implies #[trigger] latest(
            reports,
            objective,
            window,
        )[i] == rest[i - 1] by {
            assert(head[head.len() - 1 - (i - 1)] == reports[reports.len() - 1 - i]);
        }
        assert(seq![reports.last().metrics[objective]] + rest =~= latest(
            reports,
            objective,
            window,
        ));
    } else {
        assert(recent_values(reports, objective, window) =~= latest(reports, objective, window));
    }
}

/// With a window, the median of a trial's latest values takes the place of its last one.
pub proof fn law_windowed_median_spares_the_better_half<R: Reals>(
    pruner: MedianPruner,
    reals: &R,
    reports: Seq<ReportModel>,
    history: HistoryModel,
    asked: bool,
)
    requires
        pruner.judges(reals, reports, history, asked),
        averages_between(reals),
        reports.len() > 0,
        pruner@.robust_window > 1,
        forall|i: int|
            0 <= i < reports.len() ==> (#[trigger] reports[i]).metrics.contains_key(
                pruner@.objective,
            ),
        reports.last().step >= pruner@.warmup_steps,
        history.filter(
            has_completed_value(reports.last().step, pruner@.objective, |v: Scalar| true),
        ).len() >= pruner@.min_trials,
    ensures
        exists|own: Option<Scalar>| #[trigger]
            is_median(
                reals,
                latest(reports, pruner@.objective, pruner@.robust_window as nat),
                own,
            ) && match own {
                None => !asked,
                Some(current) => !current.nan() ==> {
                    let (step, name) = (reports.last().step, pruner@.objective);
                    let n = history.filter(
                        has_completed_value(step, name, |v: Scalar| !v.nan()),
                    ).len();
                    let better = history.filter(
                        has_completed_value(step, name, beats(pruner@.direction, current)),
                    ).len();
                    (2 * better > n ==> asked) && (asked ==> n > 0 && 2 * better >= n)
                },
            },
{
    let (step, name, d) = (reports.last().step, pruner@.objective, pruner@.direction);
    let f = trial::completed_value_at(step, name);
    let values = models::pick(history, f);
    let (any, number) = (|v: Scalar| true, |v: Scalar| !v.nan());
    models::picked_as_many(history, f, has_completed_value(step, name, any));
    models::picked_then_tested(history, f, number, has_completed_value(step, name, number));
    law_windows_see_the_latest_values(reports, name, pruner@.robust_window as nat);
    let own = choose|own: Option<Scalar>| #[trigger]
        pruner@.stands_at(reals, reports, own) && match own {
            Some(c) => exists|m: Option<Scalar>| #[trigger]
                is_median(reals, pruner@.peers(reports, history), m) && asked == (m is Some
                    && d.better(m->0, c)),
            None => !asked,
        };
    if let Some(c) = own {
        let m = choose|m: Option<Scalar>| #[trigger]
            is_median(reals, pruner@.peers(reports, history), m) && asked == (m is Some
                && d.better(m->0, c));
        models::picked_then_tested(
            history,
            f,
            beats(d, c),
            has_completed_value(step, name, beats(d, c)),
        );
        models::stricter_tests_keep_fewer(values, beats(d, c), number);
        if !c.nan() {
            law_median_is_better_than_half(reals, values, m, d, c);
        }
    }
    assert(is_median(reals, latest(reports, name, pruner@.robust_window as nat), own));
}

} // verus!
