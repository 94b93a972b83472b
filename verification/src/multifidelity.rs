//! Multi-fidelity optimization: Hyperband, and BOHB when paired with a model-based sampler.
//!
//! Hyperband runs several brackets of successive halving: a bracket starts many configurations
//! at a small resource, keeps the best of them, raises their resource, and repeats, so that
//! full-resource evaluations are spent on survivors. The objective is fidelity-aware: it
//! receives the resource to evaluate at, a plain number that it interprets.

use vstd::prelude::*;
use crate::metrics::{Direction, NamedMetrics};
use crate::order::ranking;
use crate::param::{Assignment, ParamSet};
use crate::reals::Reals;
use crate::sampler::Sampler;
use crate::scalar::Scalar;
use crate::space::{SearchSpace, SpaceModel};
use crate::trial::{
    HistoryModel, Metrics, ReportModel, StudyId, TrialHistory, TrialId, TrialModel, TrialRecord,
    TrialState,
};
use crate::trial::clone_records;
#[allow(unused_imports)]
use crate::models;
#[allow(unused_imports)]
use crate::order;
#[allow(unused_imports)]
use crate::space;
#[allow(unused_imports)]
use crate::trial;

verus! {

/// Evaluations, oldest first.
pub type EvalLog = Seq<EvalModel>;

/// A fidelity-aware objective.
pub trait Fidelity {
    /// Whether an evaluation of a configuration at a resource level may give `metrics`.
    spec fn gives(&self, params: Assignment, resource: u64, metrics: Metrics) -> bool;

    /// The evaluations made so far, oldest first.
    spec fn calls(&self) -> EvalLog;

    /// Evaluate a configuration at a resource level. What it may give does not change by that.
    fn evaluate(&mut self, params: &ParamSet, resource: u64) -> (m: NamedMetrics)
        ensures
            old(self).gives(params@, resource, m@),
            final(self).calls() == old(self).calls().push(
                (EvalModel { params: params@, resource, metrics: m@ }),
            ),
            forall|p: Assignment, r: u64, x: Metrics| #[trigger]
                final(self).gives(p, r, x) == old(self).gives(p, r, x),
    ;
}

/// The arithmetic of the bracket plan: geometric budgets, rounded. Nothing is assumed of the
/// answers.
pub trait BracketPlan {
    /// How many times a resource of `max_resource` can be divided by `eta`.
    fn halvings(&self, max_resource: u64, eta: usize) -> u64;

    /// How many configurations bracket `s` of `s_max` starts with.
    fn starters(&self, eta: usize, s_max: u64, s: u64) -> usize;

    /// The resource of rung `i` of bracket `s`.
    fn resource(&self, max_resource: u64, eta: usize, s: u64, i: u64) -> u64;

    /// How many of `n` starters go on after rung `i`.
    fn survivors(&self, eta: usize, n: usize, i: u64) -> usize;
}

/// Whether `r` is an answer to how often a resource can be divided.
pub open spec fn is_halvings<P: BracketPlan>(
    plan: &P,
    max_resource: u64,
    eta: usize,
    r: u64,
) -> bool {
    call_ensures(P::halvings, (plan, max_resource, eta), r)
}

/// Whether `r` is an answer to how many configurations a bracket starts with.
pub open spec fn is_starters<P: BracketPlan>(
    plan: &P,
    eta: usize,
    s_max: u64,
    s: u64,
    r: usize,
) -> bool {
    call_ensures(P::starters, (plan, eta, s_max, s), r)
}

/// Whether `r` is an answer to the resource of a rung.
pub open spec fn is_resource<P: BracketPlan>(
    plan: &P,
    max_resource: u64,
    eta: usize,
    s: u64,
    i: u64,
    r: u64,
) -> bool {
    call_ensures(P::resource, (plan, max_resource, eta, s, i), r)
}

/// Whether `r` is an answer to how many go on after a rung.
pub open spec fn is_survivors<P: BracketPlan>(
    plan: &P,
    eta: usize,
    n: usize,
    i: u64,
    r: usize,
) -> bool {
    call_ensures(P::survivors, (plan, eta, n, i), r)
}

/// One evaluation of a configuration.
#[verifier::ext_equal]
pub struct EvalModel {
    /// The configuration.
    pub params: Assignment,
    /// The resource it was evaluated at.
    pub resource: u64,
    /// What came back.
    pub metrics: Metrics,
}

/// The score of an evaluation; not a number when the objective was not reported.
pub open spec fn score(e: EvalModel, objective: Seq<char>) -> Scalar {
    match trial::value_in(Some(e.metrics), objective) {
        Some(v) => v,
        None => Scalar { bits: 0x7ff8_0000_0000_0000 },
    }
}

/// The scores of evaluations.
pub open spec fn scores(evals: Seq<EvalModel>, objective: Seq<char>) -> Seq<Scalar> {
    evals.map_values(|e: EvalModel| score(e, objective))
}

/// Whether an evaluation may win: its score is finite and it had the full resource.
pub open spec fn eligible(e: EvalModel, objective: Seq<char>, max_resource: u64) -> bool {
    score(e, objective).finite() && e.resource >= max_resource
}

/// Whether evaluation `i` wins: it is eligible, no eligible one is better, and it is better
/// than every eligible one before it.
pub open spec fn is_winner(
    log: Seq<EvalModel>,
    objective: Seq<char>,
    d: Direction,
    max_resource: u64,
    i: int,
) -> bool {
    &&& 0 <= i < log.len()
    &&& eligible(log[i], objective, max_resource)
    &&& forall|j: int|
        0 <= j < log.len() && eligible(#[trigger] log[j], objective, max_resource) ==> !d.better(
            score(log[j], objective),
            score(log[i], objective),
        ) && (j < i ==> d.better(score(log[i], objective), score(log[j], objective)))
}

/// Whether no evaluation may win.
pub open spec fn no_winner(log: Seq<EvalModel>, objective: Seq<char>, max_resource: u64) -> bool {
    forall|j: int|
        0 <= j < log.len() ==> !eligible(#[trigger] log[j], objective, max_resource)
}

/// The resource consumed by evaluations.
pub open spec fn consumed(log: Seq<EvalModel>) -> int
    decreases log.len(),
{
    if log.len() == 0 {
        0
    } else {
        consumed(log.drop_last()) + log.last().resource
    }
}

proof fn consumed_is_bounded(log: Seq<EvalModel>)
    ensures
        0 <= consumed(log) <= log.len() * u64::MAX,
    decreases log.len(),
{
    if log.len() > 0 {
        consumed_is_bounded(log.drop_last());
    }
}

/// The winner is unique.
pub proof fn law_winner_is_unique(
    log: Seq<EvalModel>,
    objective: Seq<char>,
    d: Direction,
    max_resource: u64,
    i: int,
    j: int,
)
    requires
        is_winner(log, objective, d, max_resource, i),
        is_winner(log, objective, d, max_resource, j),
    ensures
        i == j,
{
    assert(eligible(log[i], objective, max_resource));
    assert(eligible(log[j], objective, max_resource));
}

/// A rung: configurations evaluated at one resource, freshly sampled or carried over from the
/// rung before.
pub struct Rung {
    /// Whether the configurations were freshly sampled.
    pub fresh: bool,
    /// The bracket that the rung belongs to.
    pub bracket: u64,
    /// The number of the rung within its bracket, from zero.
    pub step: u64,
    /// The resource.
    pub resource: u64,
    /// The evaluations.
    pub evals: Seq<EvalModel>,
}

/// Whether `resource` is planned for rung `i` of bracket `s`, moved between one and the maximum.
pub open spec fn is_planned_resource<P: BracketPlan>(
    plan: &P,
    max_resource: u64,
    eta: usize,
    s: u64,
    i: u64,
    resource: u64,
) -> bool {
    exists|r: u64| #[trigger]
        is_resource(plan, max_resource, eta, s, i, r) && resource == if r < 1 {
            1
        } else if r > max_resource {
            max_resource
        } else {
            r
        }
}

/// Whether `n` configurations are planned for the start of bracket `s`, at least one.
pub open spec fn is_planned_start<P: BracketPlan>(
    plan: &P,
    eta: usize,
    s_max: u64,
    s: u64,
    n: int,
) -> bool {
    exists|r: usize| #[trigger]
        is_starters(plan, eta, s_max, s, r) && n == if r < 1 {
            1
        } else {
            r as int
        }
}

/// Whether `keep` of the configurations that the bracket of rung `k` started with are planned to
/// go on after it.
pub open spec fn is_planned_keep<P: BracketPlan>(
    plan: &P,
    rungs: Seq<Rung>,
    eta: usize,
    k: int,
    keep: usize,
) -> bool {
    let r = rungs[k];
    is_survivors(plan, eta, rungs[k - r.step].evals.len() as usize, r.step, keep)
}

/// Whether rung `k` ends its bracket: it is the last of its rungs, or none goes on.
pub open spec fn ends_bracket<P: BracketPlan>(
    plan: &P,
    rungs: Seq<Rung>,
    eta: usize,
    k: int,
) -> bool {
    rungs[k].step == rungs[k].bracket || is_planned_keep(plan, rungs, eta, k, 0)
}

/// Whether rung `k` is the one that is planned behind those before it: the first of the next
/// bracket, the first bracket being the highest one, or the next of the same bracket with as many
/// configurations as go on.
pub open spec fn rung_planned<P: BracketPlan>(
    plan: &P,
    rungs: Seq<Rung>,
    max_resource: u64,
    eta: usize,
    s_max: u64,
    k: int,
) -> bool {
    let r = rungs[k];
    &&& r.step <= k
    &&& r.step <= r.bracket
    &&& r.fresh == (r.step == 0)
    &&& is_planned_resource(plan, max_resource, eta, r.bracket, r.step, r.resource)
    &&& if r.step == 0 {
        &&& is_planned_start(plan, eta, s_max, r.bracket, r.evals.len() as int)
        &&& if k == 0 {
            r.bracket == s_max
        } else {
            rungs[k - 1].bracket == r.bracket + 1 && ends_bracket(plan, rungs, eta, k - 1)
        }
    } else {
        let before = rungs[k - 1];
        &&& before.bracket == r.bracket && before.step == r.step - 1
        &&& exists|keep: usize| #[trigger]
            is_planned_keep(plan, rungs, eta, k - 1, keep) && keep > 0 && r.evals.len() == if keep
                < before.evals.len() {
                keep as nat
            } else {
                before.evals.len()
            }
    }
}

/// Whether rungs follow the plan.
pub open spec fn planned<P: BracketPlan>(
    plan: &P,
    rungs: Seq<Rung>,
    max_resource: u64,
    eta: usize,
    s_max: u64,
) -> bool {
    forall|k: int|
        0 <= k < rungs.len() ==> #[trigger] rung_planned(
            plan,
            rungs,
            max_resource,
            eta,
            s_max,
            k,
        )
}

/// Whether rungs follow the plan through to the end of the last bracket.
pub open spec fn plan_done<P: BracketPlan>(
    plan: &P,
    rungs: Seq<Rung>,
    max_resource: u64,
    eta: usize,
) -> bool {
    exists|s_max: u64| #[trigger]
        is_halvings(plan, max_resource, eta, s_max) && planned(
            plan,
            rungs,
            max_resource,
            eta,
            s_max,
        ) && rungs.len() > 0 && rungs.last().bracket == 0 && ends_bracket(
            plan,
            rungs,
            eta,
            rungs.len() - 1,
        )
}

/// Appending a planned rung keeps to the plan.
proof fn planned_push<P: BracketPlan>(
    plan: &P,
    rungs: Seq<Rung>,
    r: Rung,
    max_resource: u64,
    eta: usize,
    s_max: u64,
)
    requires
        planned(plan, rungs, max_resource, eta, s_max),
        rung_planned(plan, rungs.push(r), max_resource, eta, s_max, rungs.len() as int),
    ensures
        planned(plan, rungs.push(r), max_resource, eta, s_max),
{
    let after = rungs.push(r);
    assert forall|k: int| 0 <= k < after.len() implies #[trigger] rung_planned(
        plan,
        after,
        max_resource,
        eta,
        s_max,
        k,
    ) by {
        if k < rungs.len() {
            assert(rung_planned(plan, rungs, max_resource, eta, s_max, k));
            assert(after[k] == rungs[k]);
            if k > 0 {
                assert(rung_planned(plan, rungs, max_resource, eta, s_max, k - 1));
                keeps_agree(plan, rungs, r, eta, k - 1);
                if rungs[k].step > 0 {
                    let keep = choose|keep: usize| #[trigger]
                        is_planned_keep(plan, rungs, eta, k - 1, keep) && keep > 0
                            && rungs[k].evals.len() == if keep < rungs[k - 1].evals.len() {
                            keep as nat
                        } else {
                            rungs[k - 1].evals.len()
                        };
                    assert(is_planned_keep(plan, after, eta, k - 1, keep));
                }
            }
        }
    }
}

/// What goes on after a rung does not depend on the rungs behind it.
proof fn keeps_agree<P: BracketPlan>(
    plan: &P,
    rungs: Seq<Rung>,
    r: Rung,
    eta: usize,
    k: int,
)
    requires
        0 <= k < rungs.len(),
        rungs[k].step <= k,
    ensures
        rungs.push(r)[k] == rungs[k],
        forall|keep: usize| #[trigger]
            is_planned_keep(plan, rungs.push(r), eta, k, keep) == is_planned_keep(
                plan,
                rungs,
                eta,
                k,
                keep,
            ),
        ends_bracket(plan, rungs.push(r), eta, k) == ends_bracket(plan, rungs, eta, k),
{
    let first = k - rungs[k].step;
    assert(rungs.push(r)[first] == rungs[first]);
}

/// Whether `next` holds the best `next.len()` of the configurations of `evals`, best first.
/// Scores that are not numbers leave the order among configurations open.
pub open spec fn survived(
    evals: Seq<EvalModel>,
    objective: Seq<char>,
    d: Direction,
    next: Seq<Assignment>,
) -> bool {
    exists|p: Seq<usize>| #[trigger]
        order::is_permutation(p, evals.len() as int) && (order::all_numbers(
            scores(evals, objective),
        ) ==> order::is_ranking(scores(evals, objective), d, p)) && next.len() <= evals.len()
            && next == Seq::new(next.len(), |i: int| evals[p[i] as int].params)
}

/// The configurations of evaluations.
pub open spec fn configs(evals: Seq<EvalModel>) -> Seq<Assignment> {
    evals.map_values(|e: EvalModel| e.params)
}

/// Whether rung `k` stands where it may: at one resource within the limit, non-empty, and fresh
/// or made of survivors of the rung before.
pub open spec fn rung_sound(
    rungs: Seq<Rung>,
    objective: Seq<char>,
    d: Direction,
    max_resource: u64,
    k: int,
) -> bool {
    let r = rungs[k];
    &&& 1 <= r.resource <= max_resource
    &&& r.evals.len() > 0
    &&& forall|i: int| 0 <= i < r.evals.len() ==> (#[trigger] r.evals[i]).resource == r.resource
    &&& r.fresh || (k > 0 && survived(rungs[k - 1].evals, objective, d, configs(r.evals)))
}

/// Whether rungs follow successive halving.
pub open spec fn halving(
    rungs: Seq<Rung>,
    objective: Seq<char>,
    d: Direction,
    max_resource: u64,
) -> bool {
    forall|k: int|
        0 <= k < rungs.len() ==> #[trigger] rung_sound(rungs, objective, d, max_resource, k)
}

/// The evaluations of rungs, in order.
pub open spec fn evaluations(rungs: Seq<Rung>) -> Seq<EvalModel>
    decreases rungs.len(),
{
    if rungs.len() == 0 {
        Seq::empty()
    } else {
        evaluations(rungs.drop_last()) + rungs.last().evals
    }
}

/// Appending a rung appends its evaluations.
proof fn evaluations_push(rungs: Seq<Rung>, r: Rung)
    ensures
        evaluations(rungs.push(r)) == evaluations(rungs) + r.evals,
{
    assert(rungs.push(r).drop_last() =~= rungs);
}

/// Appending a sound rung keeps the halving.
proof fn halving_push(
    rungs: Seq<Rung>,
    r: Rung,
    objective: Seq<char>,
    d: Direction,
    max_resource: u64,
)
    requires
        halving(rungs, objective, d, max_resource),
        rung_sound(rungs.push(r), objective, d, max_resource, rungs.len() as int),
    ensures
        halving(rungs.push(r), objective, d, max_resource),
{
    let after = rungs.push(r);
    assert forall|k: int| 0 <= k < after.len() implies #[trigger] rung_sound(
        after,
        objective,
        d,
        max_resource,
        k,
    ) by {
        if k < rungs.len() {
            assert(rung_sound(rungs, objective, d, max_resource, k));
            assert(after[k] == rungs[k]);
            if k > 0 {
                assert(after[k - 1] == rungs[k - 1]);
            }
        }
    }
}

/// The best evaluation so far.
#[derive(Debug)]
pub struct Incumbent {
    /// The configuration.
    pub params: ParamSet,
    /// Its score.
    pub score: Scalar,
    /// The resource it was evaluated at.
    pub resource: u64,
}

/// Whether `best` is the winner of a log, or nothing when there is none.
pub open spec fn is_best(
    log: Seq<EvalModel>,
    objective: Seq<char>,
    d: Direction,
    max_resource: u64,
    best: Option<Incumbent>,
) -> bool {
    match best {
        Some(b) => exists|i: int| #[trigger]
            is_winner(log, objective, d, max_resource, i) && b.params@ == log[i].params && b.score
                == score(log[i], objective) && b.resource == log[i].resource,
        None => no_winner(log, objective, max_resource),
    }
}

/// Whether a trial record holds an evaluation.
pub open spec fn holds(t: TrialModel, e: EvalModel, i: int) -> bool {
    &&& t.id.0 == i
    &&& t.study_id == StudyId(0)
    &&& t.seed == i
    &&& t.params == e.params
    &&& t.state == TrialState::Complete
    &&& t.reports == Seq::<ReportModel>::empty()
    &&& t.final_metrics == Some(e.metrics)
}

/// Whether a history holds a log of evaluations.
pub open spec fn keeps_log(history: HistoryModel, log: Seq<EvalModel>) -> bool {
    &&& history.len() == log.len()
    &&& forall|i: int| 0 <= i < history.len() ==> holds(#[trigger] history[i], log[i], i)
}

/// Whether every evaluation of a log is what the objective may give.
pub open spec fn all_given<E: Fidelity>(eval: &E, log: Seq<EvalModel>) -> bool {
    forall|i: int|
        0 <= i < log.len() ==> eval.gives(
            (#[trigger] log[i]).params,
            log[i].resource,
            log[i].metrics,
        )
}

/// For each evaluation of rungs, whether its configuration was freshly sampled.
pub open spec fn freshness(rungs: Seq<Rung>) -> Seq<bool>
    decreases rungs.len(),
{
    if rungs.len() == 0 {
        Seq::empty()
    } else {
        freshness(rungs.drop_last()) + Seq::new(
            rungs.last().evals.len(),
            |i: int| rungs.last().fresh,
        )
    }
}

/// Whether the sampler proposed the configuration of the last evaluation of a log for a history
/// that holds those before it, and went from `before` to `after` by that.
pub open spec fn proposed_last<S: Sampler<R>, R: Reals>(
    reals: &R,
    space: SpaceModel,
    log: Seq<EvalModel>,
    before: S,
    after: S,
) -> bool {
    exists|history: HistoryModel| #[trigger]
        keeps_log(history, log.drop_last()) && before.proposes(
            reals,
            space,
            history,
            log.last().params,
            after,
        )
}

/// Whether the fresh configurations of a log were proposed one after the other, each for a
/// history that holds all evaluations before it, with the sampler going from `first` to `now`.
pub open spec fn drawn<S: Sampler<R>, R: Reals>(
    reals: &R,
    space: SpaceModel,
    log: Seq<EvalModel>,
    fresh: Seq<bool>,
    first: S,
    now: S,
) -> bool
    decreases log.len(),
{
    if log.len() == 0 {
        now == first
    } else if fresh.last() {
        exists|mid: S|
            drawn(reals, space, log.drop_last(), fresh.drop_last(), first, mid)
                && #[trigger] proposed_last(reals, space, log, mid, now)
    } else {
        drawn(reals, space, log.drop_last(), fresh.drop_last(), first, now)
    }
}

/// Appending a rung appends the freshness of its evaluations.
proof fn freshness_push(rungs: Seq<Rung>, r: Rung)
    ensures
        freshness(rungs.push(r)) == freshness(rungs) + Seq::new(r.evals.len(), |i: int| r.fresh),
{
    assert(rungs.push(r).drop_last() =~= rungs);
}

/// What a run has evaluated: its records, the best, and the resource consumed.
struct Ledger {
    history: Vec<TrialRecord>,
    best: Option<Incumbent>,
    total: u128,
    log: Ghost<Seq<EvalModel>>,
    fresh: Ghost<Seq<bool>>,
    /// The evaluations made before the run.
    past: Ghost<Seq<EvalModel>>,
}

impl Ledger {
    /// Whether `calls` are the evaluations made before the run, and then its own.
    spec fn covers(self, calls: Seq<EvalModel>) -> bool {
        calls == self.past@ + self.log@
    }

    spec fn well_formed(self, objective: Seq<char>, d: Direction, max_resource: u64) -> bool {
        &&& self.history@.len() == self.log@.len()
        &&& self.fresh@.len() == self.log@.len()
        &&& forall|i: int|
            0 <= i < self.history@.len() ==> holds(
                (#[trigger] self.history@[i])@,
                self.log@[i],
                i,
            )
        &&& self.total == consumed(self.log@)
        &&& is_best(self.log@, objective, d, max_resource, self.best)
    }
}

/// The result of a run.
#[derive(Debug)]
pub struct HyperbandOutcome {
    /// The best configuration among full-resource evaluations.
    pub best_params: ParamSet,
    /// That configuration's score.
    pub best_score: Scalar,
    /// The resource level at which the best score was observed.
    pub best_resource: u64,
    /// Total resource consumed across all evaluations.
    pub total_resource: u128,
    /// Number of evaluations performed.
    pub evaluations: usize,
}

/// Whether an outcome sums up a log.
pub open spec fn sums_up(
    out: HyperbandOutcome,
    log: Seq<EvalModel>,
    objective: Seq<char>,
    d: Direction,
    max_resource: u64,
) -> bool {
    &&& out.evaluations == log.len()
    &&& out.total_resource == consumed(log)
    &&& if no_winner(log, objective, max_resource) {
        out.best_params@ == Map::<Seq<char>, crate::param::ParamModel>::empty()
            && out.best_score.nan() && out.best_resource == 0
    } else {
        exists|i: int| #[trigger]
            is_winner(log, objective, d, max_resource, i) && out.best_params@ == log[i].params
                && out.best_score == score(log[i], objective) && out.best_resource
                == log[i].resource
    }
}

/// Whether a log grew by evaluations at one resource.
pub open spec fn grew(
    before: Seq<EvalModel>,
    after: Seq<EvalModel>,
    resource: u64,
    params: Seq<Assignment>,
    objective: Seq<char>,
    values: Seq<Scalar>,
) -> bool {
    let new = after.skip(before.len() as int);
    &&& before.len() <= after.len()
    &&& after.take(before.len() as int) == before
    &&& forall|i: int| 0 <= i < new.len() ==> (#[trigger] new[i]).resource == resource
    &&& configs(new) == params
    &&& scores(new, objective) == values
}

/// A Hyperband multi-fidelity optimizer. Pair with a model-based sampler for BOHB.
#[derive(Debug)]
pub struct Hyperband {
    max_resource: u64,
    eta: usize,
    direction: Direction,
    objective: String,
}

impl Hyperband {
    /// The maximum resource per configuration.
    pub closed spec fn limit(self) -> u64 {
        self.max_resource
    }

    /// The reduction factor.
    pub closed spec fn factor(self) -> usize {
        self.eta
    }

    /// Which way is better.
    pub closed spec fn aim(self) -> Direction {
        self.direction
    }

    /// The optimized objective.
    pub closed spec fn target(self) -> Seq<char> {
        self.objective@
    }

    #[verifier::type_invariant]
    spec fn positive(self) -> bool {
        self.max_resource >= 1 && self.eta >= 2
    }

    /// A new optimizer with maximum resource `max_resource` per configuration (at least 1) and
    /// reduction factor `eta` (at least 2), optimizing the named `objective`.
    pub fn new(objective: &str, direction: Direction, max_resource: u64, eta: usize) -> (h: Self)
        ensures
            h.target() == objective@,
            h.aim() == direction,
            h.limit() == if max_resource < 1 {
                1
            } else {
                max_resource
            },
            h.factor() == if eta < 2 {
                2
            } else {
                eta
            },
    {
        Hyperband {
            max_resource: if max_resource < 1 {
                1
            } else {
                max_resource
            },
            eta: if eta < 2 {
                2
            } else {
                eta
            },
            direction,
            objective: objective.to_owned(),
        }
    }

    /// Record an evaluation and update the best: the winner is chosen only among full-resource
    /// evaluations, so that the optimistic noise of cheap rungs cannot decide the result.
    fn record(
        &self,
        ledger: &mut Ledger,
        params: &ParamSet,
        resource: u64,
        metrics: NamedMetrics,
        Ghost(fresh): Ghost<bool>,
    ) -> (s: Scalar)
        requires
            old(ledger).well_formed(self.target(), self.aim(), self.limit()),
        ensures
            final(ledger).well_formed(self.target(), self.aim(), self.limit()),
            final(ledger).log@ == old(ledger).log@.push(
                EvalModel { params: params@, resource, metrics: metrics@ },
            ),
            final(ledger).fresh@ == old(ledger).fresh@.push(fresh),
            final(ledger).past == old(ledger).past,
            s == score(
                EvalModel { params: params@, resource, metrics: metrics@ },
                self.target(),
            ),
    {
        let ghost e = EvalModel { params: params@, resource, metrics: metrics@ };
        let ghost before = ledger.log@;
        let ghost after = before.push(e);
        let ghost target = self.target();
        let ghost d = self.aim();
        let ghost limit = self.limit();
        let s = match metrics.get(self.objective.as_str()) {
            Some(v) => v,
            None => Scalar::from_bits(0x7ff8_0000_0000_0000),
        };
        let n = ledger.history.len();
        proof {
            consumed_is_bounded(before);
            assert(after.drop_last() =~= before);
            assert(consumed(after) == consumed(before) + resource);
        }
        ledger.total = ledger.total + resource as u128;
        let ghost records = ledger.history@;
        let mut rec = TrialRecord::new(TrialId(n as u64), StudyId(0), params.clone(), n as u64);
        rec.state = TrialState::Complete;
        rec.final_metrics = Some(metrics);
        proof {
            assert(holds(rec@, e, n as int));
        }
        ledger.history.push(rec);
        let better = match &ledger.best {
            Some(b) => self.direction.is_better(s, b.score),
            None => true,
        };
        if s.is_finite() && resource >= self.max_resource && better {
            proof {
                assert(is_winner(after, target, d, limit, n as int)) by {
                    assert forall|j: int|
                        0 <= j < after.len() && eligible(
                            #[trigger] after[j],
                            target,
                            limit,
                        ) implies !d.better(score(after[j], target), score(after[n as int], target))
                        && (j < n ==> d.better(
                        score(after[n as int], target),
                        score(after[j], target),
                    )) by {
                        if j < n {
                            assert(after[j] == before[j]);
                            let b = ledger.best->0;
                            let w = choose|i: int| #[trigger]
                                is_winner(before, target, d, limit, i) && b.params@
                                    == before[i].params && b.score == score(before[i], target)
                                    && b.resource == before[i].resource;
                            assert(eligible(before[w], target, limit));
                        }
                    }
                }
            }
            ledger.best = Some(Incumbent { params: params.clone(), score: s, resource });
        } else {
            proof {
                if ledger.best is Some {
                    let b = ledger.best->0;
                    let w = choose|i: int| #[trigger]
                        is_winner(before, target, d, limit, i) && b.params@ == before[i].params
                            && b.score == score(before[i], target) && b.resource
                            == before[i].resource;
                    assert(after[w] == before[w]);
                    assert(is_winner(after, target, d, limit, w)) by {
                        assert forall|j: int|
                            0 <= j < after.len() && eligible(
                                #[trigger] after[j],
                                target,
                                limit,
                            ) implies !d.better(score(after[j], target), score(after[w], target))
                            && (j < w ==> d.better(
                            score(after[w], target),
                            score(after[j], target),
                        )) by {
                            if j < n {
                                assert(after[j] == before[j]);
                            }
                        }
                    }
                } else {
                    assert forall|j: int| 0 <= j < after.len() implies !eligible(
                        #[trigger] after[j],
                        target,
                        limit,
                    ) by {
                        if j < n {
                            assert(after[j] == before[j]);
                        }
                    }
                }
            }
        }
        ledger.log = Ghost(after);
        ledger.fresh = Ghost(ledger.fresh@.push(fresh));
        proof {
            assert forall|i: int| 0 <= i < ledger.history@.len() implies holds(
                (#[trigger] ledger.history@[i])@,
                after[i],
                i,
            ) by {
                if i < n {
                    assert(ledger.history@[i] == records[i]);
                }
            }
        }
        s
    }

    /// The first rung of a bracket: sample and evaluate one configuration at a time, so that
    /// the sampler sees a growing history.
    fn start<S: Sampler<R>, E: Fidelity, R: Reals>(
        &self,
        space: &SearchSpace,
        sampler: &mut S,
        eval: &mut E,
        reals: &R,
        n: usize,
        resource: u64,
        ledger: &mut Ledger,
        Ghost(first): Ghost<S>,
    ) -> (r: (Vec<Scalar>, Vec<ParamSet>))
        requires
            space::drawable_space(space@),
            old(ledger).well_formed(self.target(), self.aim(), self.limit()),
            drawn(
                reals,
                space@,
                old(ledger).log@,
                old(ledger).fresh@,
                first,
                *old(sampler),
            ),
            all_given(old(eval), old(ledger).log@),
            old(ledger).covers(old(eval).calls()),
        ensures
            final(ledger).past == old(ledger).past,
            final(ledger).covers(final(eval).calls()),
            final(ledger).well_formed(self.target(), self.aim(), self.limit()),
            drawn(
                reals,
                space@,
                final(ledger).log@,
                final(ledger).fresh@,
                first,
                *final(sampler),
            ),
            final(ledger).fresh@ == old(ledger).fresh@ + Seq::new(n as nat, |i: int| true),
            all_given(old(eval), final(ledger).log@),
            forall|p: Assignment, r: u64, x: Metrics| #[trigger]
                final(eval).gives(p, r, x) == old(eval).gives(p, r, x),
            r.1@.len() == n,
            grew(
                old(ledger).log@,
                final(ledger).log@,
                resource,
                models::of(r.1@),
                self.target(),
                r.0@,
            ),
    {
        let mut values: Vec<Scalar> = Vec::new();
        let mut chosen: Vec<ParamSet> = Vec::new();
        let ghost before = ledger.log@;
        let ghost flags = ledger.fresh@;
        let mut i: usize = 0;
        proof {
            grew_nothing(before, resource, self.target());
            assert(models::of(chosen@) =~= Seq::<Assignment>::empty());
            assert(flags + Seq::new(0, |i: int| true) =~= flags);
        }
        while i < n
            invariant
                i <= n,
                space::drawable_space(space@),
                ledger.well_formed(self.target(), self.aim(), self.limit()),
                chosen@.len() == i,
                grew(before, ledger.log@, resource, models::of(chosen@), self.target(), values@),
                drawn(reals, space@, ledger.log@, ledger.fresh@, first, *sampler),
                ledger.fresh@ == flags + Seq::new(i as nat, |i: int| true),
                all_given(old(eval), ledger.log@),
                ledger.past == old(ledger).past,
                ledger.covers(eval.calls()),
                forall|p: Assignment, r: u64, x: Metrics| #[trigger]
                    eval.gives(p, r, x) == old(eval).gives(p, r, x),
            decreases n - i,
        {
            let h = TrialHistory::new(clone_records(&ledger.history));
            let ghost asked = *sampler;
            let c = sampler.suggest(space, &h, reals);
            let metrics = eval.evaluate(&c, resource);
            let ghost mid = ledger.log@;
            let ghost marks = ledger.fresh@;
            let ghost was = chosen@;
            let ghost vals = values@;
            let ghost e = EvalModel { params: c@, resource, metrics: metrics@ };
            let s = self.record(ledger, &c, resource, metrics, Ghost(true));
            values.push(s);
            chosen.push(c);
            proof {
                let log = ledger.log@;
                assert(log.drop_last() =~= mid);
                assert(ledger.fresh@.drop_last() =~= marks);
                assert(keeps_log(h@, mid));
                assert(proposed_last(reals, space@, log, asked, *sampler));
                assert(ledger.fresh@ =~= flags + Seq::new((i + 1) as nat, |i: int| true));
                given_push(old(eval), mid, e);
                assert(ledger.past@ + mid.push(e) =~= (ledger.past@ + mid).push(e));
                grew_push(before, mid, resource, models::of(was), self.target(), vals, e);
                assert(models::of(chosen@) =~= models::of(was).push(e.params));
            }
            i += 1;
        }
        (values, chosen)
    }

    /// A later rung: evaluate the surviving configurations at their new resource.
    fn again<E: Fidelity>(
        &self,
        chosen: &Vec<ParamSet>,
        eval: &mut E,
        resource: u64,
        ledger: &mut Ledger,
    ) -> (values: Vec<Scalar>)
        requires
            old(ledger).well_formed(self.target(), self.aim(), self.limit()),
            all_given(old(eval), old(ledger).log@),
            old(ledger).covers(old(eval).calls()),
        ensures
            final(ledger).past == old(ledger).past,
            final(ledger).covers(final(eval).calls()),
            final(ledger).well_formed(self.target(), self.aim(), self.limit()),
            final(ledger).fresh@ == old(ledger).fresh@ + Seq::new(
                chosen@.len(),
                |i: int| false,
            ),
            all_given(old(eval), final(ledger).log@),
            forall|p: Assignment, r: u64, x: Metrics| #[trigger]
                final(eval).gives(p, r, x) == old(eval).gives(p, r, x),
            grew(
                old(ledger).log@,
                final(ledger).log@,
                resource,
                models::of(chosen@),
                self.target(),
                values@,
            ),
    {
        let mut values: Vec<Scalar> = Vec::new();
        let ghost before = ledger.log@;
        let ghost flags = ledger.fresh@;
        let ghost all = models::of(chosen@);
        let mut i: usize = 0;
        proof {
            assert(flags + Seq::new(0, |i: int| false) =~= flags);
            grew_nothing(before, resource, self.target());
            assert(all.take(0) =~= Seq::<Assignment>::empty());
        }
        while i < chosen.len()
            invariant
                i <= chosen@.len(),
                all == models::of(chosen@),
                ledger.well_formed(self.target(), self.aim(), self.limit()),
                grew(before, ledger.log@, resource, all.take(i as int), self.target(), values@),
                ledger.fresh@ == flags + Seq::new(i as nat, |i: int| false),
                all_given(old(eval), ledger.log@),
                ledger.past == old(ledger).past,
                ledger.covers(eval.calls()),
                forall|p: Assignment, r: u64, x: Metrics| #[trigger]
                    eval.gives(p, r, x) == old(eval).gives(p, r, x),
            decreases chosen@.len() - i,
        {
            let c = &chosen[i];
            let metrics = eval.evaluate(c, resource);
            let ghost mid = ledger.log@;
            let ghost vals = values@;
            let ghost e = EvalModel { params: c@, resource, metrics: metrics@ };
            let s = self.record(ledger, c, resource, metrics, Ghost(false));
            values.push(s);
            proof {
                assert(ledger.fresh@ =~= flags + Seq::new((i + 1) as nat, |i: int| false));
                given_push(old(eval), mid, e);
                assert(ledger.past@ + mid.push(e) =~= (ledger.past@ + mid).push(e));
                grew_push(before, mid, resource, all.take(i as int), self.target(), vals, e);
                assert(all.take(i + 1) =~= all.take(i as int).push(e.params));
            }
            i += 1;
        }
        proof {
            assert(all.take(i as int) =~= all);
        }
        values
    }

    /// The best `keep` configurations, best first.
    pub fn promote(&self, values: &Vec<Scalar>, chosen: &Vec<ParamSet>, keep: usize) -> (next: Vec<
        ParamSet,
    >)
        requires
            values@.len() == chosen@.len(),
        ensures
            next@.len() == if keep < chosen@.len() {
                keep as int
            } else {
                chosen@.len() as int
            },
            exists|p: Seq<usize>| #[trigger]
                order::is_permutation(p, chosen@.len() as int) && (order::all_numbers(values@)
                    ==> order::is_ranking(values@, self.aim(), p)) && models::of(next@)
                    == Seq::new(next@.len(), |i: int| chosen@[p[i] as int]@),
    {
        let p = ranking(values, self.direction);
        let mut next: Vec<ParamSet> = Vec::new();
        let mut i: usize = 0;
        while i < keep && i < p.len()
            invariant
                i <= keep,
                i <= p@.len(),
                order::is_permutation(p@, chosen@.len() as int),
                next@.len() == i,
                forall|k: int|
                    0 <= k < i ==> (#[trigger] next@[k])@ == chosen@[p@[k] as int]@,
            decreases p@.len() - i,
        {
            let ghost at = p@[i as int];
            next.push(chosen[p[i]].clone());
            i += 1;
        }
        proof {
            assert(models::of(next@) =~= Seq::new(
                next@.len(),
                |i: int| chosen@[p@[i] as int]@,
            ));
        }
        next
    }

    /// One bracket of successive halving, `s + 1` rungs at most.
    fn bracket<S: Sampler<R>, E: Fidelity, R: Reals, P: BracketPlan>(
        &self,
        space: &SearchSpace,
        sampler: &mut S,
        eval: &mut E,
        reals: &R,
        plan: &P,
        n: usize,
        s: u64,
        ledger: &mut Ledger,
        Ghost(done): Ghost<Seq<Rung>>,
        Ghost(s_max): Ghost<u64>,
        Ghost(first): Ghost<S>,
    ) -> (all: Ghost<Seq<Rung>>)
        requires
            n >= 1,
            is_planned_start(plan, self.factor(), s_max, s, n as int),
            planned(plan, done, self.limit(), self.factor(), s_max),
            if done.len() == 0 {
                s == s_max
            } else {
                done.last().bracket == s + 1 && ends_bracket(
                    plan,
                    done,
                    self.factor(),
                    done.len() - 1,
                )
            },
            space::drawable_space(space@),
            old(ledger).well_formed(self.target(), self.aim(), self.limit()),
            halving(done, self.target(), self.aim(), self.limit()),
            old(ledger).log@ == evaluations(done),
            old(ledger).fresh@ == freshness(done),
            drawn(
                reals,
                space@,
                old(ledger).log@,
                old(ledger).fresh@,
                first,
                *old(sampler),
            ),
            all_given(old(eval), old(ledger).log@),
            old(ledger).covers(old(eval).calls()),
        ensures
            final(ledger).past == old(ledger).past,
            final(ledger).covers(final(eval).calls()),
            final(ledger).well_formed(self.target(), self.aim(), self.limit()),
            final(ledger).fresh@ == freshness(all@),
            drawn(
                reals,
                space@,
                final(ledger).log@,
                final(ledger).fresh@,
                first,
                *final(sampler),
            ),
            all_given(old(eval), final(ledger).log@),
            forall|p: Assignment, r: u64, x: Metrics| #[trigger]
                final(eval).gives(p, r, x) == old(eval).gives(p, r, x),
            halving(all@, self.target(), self.aim(), self.limit()),
            final(ledger).log@ == evaluations(all@),
            done.len() < all@.len() <= done.len() + s + 1,
            all@.take(done.len() as int) == done,
            all@[done.len() as int].fresh,
            all@[done.len() as int].evals.len() == n,
            planned(plan, all@, self.limit(), self.factor(), s_max),
            all@.last().bracket == s,
            ends_bracket(plan, all@, self.factor(), all@.len() - 1),
    {
        proof {
            use_type_invariant(self);
        }
        let ghost target = self.target();
        let ghost d = self.aim();
        let ghost limit = self.limit();
        let ghost eta = self.factor();
        let least = self.resource(plan, s, 0);
        let ghost before = ledger.log@;
        let (mut values, mut chosen) = self.start(
            space,
            sampler,
            eval,
            reals,
            n,
            least,
            ledger,
            Ghost(first),
        );
        let ghost mut rungs = done;
        proof {
            let evals = ledger.log@.skip(before.len() as int);
            assert(evals.len() == configs(evals).len());
            let r = Rung { fresh: true, bracket: s, step: 0, resource: least, evals };
            assert(rungs.push(r)[rungs.len() as int] == r);
            halving_push(rungs, r, target, d, limit);
            if done.len() > 0 {
                assert(rung_planned(plan, done, limit, eta, s_max, done.len() - 1));
                keeps_agree(plan, done, r, eta, done.len() - 1);
            }
            assert(rung_planned(plan, rungs.push(r), limit, eta, s_max, rungs.len() as int));
            planned_push(plan, rungs, r, limit, eta, s_max);
            evaluations_push(rungs, r);
            freshness_push(rungs, r);
            assert(ledger.fresh@ =~= freshness(rungs.push(r)));
            assert(ledger.log@ =~= before + evals);
            rungs = rungs.push(r);
            assert(rungs.take(done.len() as int) =~= done);
            assert(scores(evals, target).len() == evals.len());
        }
        let mut i: u64 = 0;
        while i < s
            invariant
                i <= s,
                target == self.target(),
                d == self.aim(),
                limit == self.limit(),
                ledger.well_formed(target, d, limit),
                halving(rungs, target, d, limit),
                ledger.log@ == evaluations(rungs),
                ledger.fresh@ == freshness(rungs),
                drawn(reals, space@, ledger.log@, ledger.fresh@, first, *sampler),
                all_given(old(eval), ledger.log@),
                ledger.past == old(ledger).past,
                ledger.covers(eval.calls()),
                forall|p: Assignment, r: u64, x: Metrics| #[trigger]
                    eval.gives(p, r, x) == old(eval).gives(p, r, x),
                eta == self.factor(),
                planned(plan, rungs, limit, eta, s_max),
                rungs.len() == done.len() + i + 1,
                rungs.last().bracket == s,
                rungs.last().step == i,
                rungs.take(done.len() as int) == done,
                rungs[done.len() as int].fresh,
                rungs[done.len() as int].evals.len() == n,
                configs(rungs.last().evals) == models::of(chosen@),
                scores(rungs.last().evals, target) == values@,
            decreases s - i,
        {
            proof {
                assert(configs(rungs.last().evals).len() == rungs.last().evals.len());
                assert(scores(rungs.last().evals, target).len() == rungs.last().evals.len());
            }
            let keep = plan.survivors(self.eta, n, i);
            proof {
                assert(is_planned_keep(plan, rungs, eta, rungs.len() - 1, keep));
            }
            if keep == 0 {
                return Ghost(rungs);
            }
            let ghost last = rungs.last();
            let next = self.promote(&values, &chosen, keep);
            i = i + 1;
            let resource = self.resource(plan, s, i);
            let ghost mid = ledger.log@;
            let ghost marks = ledger.fresh@;
            let ghost was = chosen@;
            proof {
                assert(rung_sound(rungs, target, d, limit, rungs.len() - 1));
                assert(was.len() > 0);
            }
            proof {
                assert forall|k: int| 0 <= k < mid.len() implies eval.gives(
                    (#[trigger] mid[k]).params,
                    mid[k].resource,
                    mid[k].metrics,
                ) by {
                    assert(old(eval).gives(mid[k].params, mid[k].resource, mid[k].metrics));
                }
            }
            let ghost within = *eval;
            values = self.again(&next, eval, resource, ledger);
            proof {
                assert forall|k: int| 0 <= k < ledger.log@.len() implies old(eval).gives(
                    (#[trigger] ledger.log@[k]).params,
                    ledger.log@[k].resource,
                    ledger.log@[k].metrics,
                ) by {
                    let e = ledger.log@[k];
                    assert(within.gives(e.params, e.resource, e.metrics));
                }
                assert(ledger.log@.take(mid.len() as int) == mid);
                carried_over(
                    reals,
                    space@,
                    mid,
                    ledger.log@,
                    marks,
                    ledger.fresh@,
                    first,
                    *sampler,
                );
                let evals = ledger.log@.skip(mid.len() as int);
                assert(evals.len() == configs(evals).len());
                let p = choose|p: Seq<usize>| #[trigger]
                    order::is_permutation(p, was.len() as int) && (order::all_numbers(
                        scores(last.evals, target),
                    ) ==> order::is_ranking(scores(last.evals, target), d, p)) && models::of(
                        next@,
                    ) == Seq::new(next@.len(), |i: int| was[p[i] as int]@);
                assert(survived(last.evals, target, d, configs(evals))) by {
                    assert(order::is_permutation(p, last.evals.len() as int));
                    let want = Seq::new(
                        configs(evals).len(),
                        |i: int| last.evals[p[i] as int].params,
                    );
                    assert forall|k: int| 0 <= k < want.len() implies configs(evals)[k]
                        == want[k] by {
                        assert(p[k] < was.len());
                        assert(configs(last.evals)[p[k] as int] == models::of(was)[p[k] as int]);
                    }
                    assert(configs(evals) =~= want);
                }
                let r = Rung { fresh: false, bracket: s, step: i, resource, evals };
                let after = rungs.push(r);
                assert(after[rungs.len() as int] == r);
                assert(after[rungs.len() - 1] == last);
                halving_push(rungs, r, target, d, limit);
                keeps_agree(plan, rungs, r, eta, rungs.len() - 1);
                assert(is_planned_keep(plan, after, eta, rungs.len() - 1, keep));
                assert(rung_planned(plan, after, limit, eta, s_max, rungs.len() as int));
                planned_push(plan, rungs, r, limit, eta, s_max);
                evaluations_push(rungs, r);
                freshness_push(rungs, r);
                assert(ledger.fresh@ =~= freshness(after));
                assert(ledger.log@ =~= mid + evals);
                assert(after.take(done.len() as int) =~= rungs.take(done.len() as int));
                assert(after[done.len() as int] == rungs[done.len() as int]);
                rungs = after;
            }
            chosen = next;
        }
        Ghost(rungs)
    }

    /// The resource of rung `i` of bracket `s`, at least 1 and no more than the maximum.
    fn resource<P: BracketPlan>(&self, plan: &P, s: u64, i: u64) -> (r: u64)
        ensures
            1 <= r <= self.limit(),
            is_planned_resource(plan, self.limit(), self.factor(), s, i, r),
    {
        proof {
            use_type_invariant(self);
        }
        let r = plan.resource(self.max_resource, self.eta, s, i);
        proof {
            assert(is_resource(plan, self.limit(), self.factor(), s, i, r));
        }
        if r < 1 {
            1
        } else if r > self.max_resource {
            self.max_resource
        } else {
            r
        }
    }

    /// Run all brackets. Configurations are drawn from `sampler`, which sees the history of
    /// everything evaluated so far, so a model-based sampler yields BOHB.
    pub fn optimize<S: Sampler<R>, E: Fidelity, R: Reals, P: BracketPlan>(
        &self,
        space: &SearchSpace,
        sampler: &mut S,
        eval: &mut E,
        reals: &R,
        plan: &P,
    ) -> (out: HyperbandOutcome)
        requires
            space::drawable_space(space@),
        ensures
            out.evaluations >= 1,
            exists|rungs: Seq<Rung>| #[trigger]
                halving(rungs, self.target(), self.aim(), self.limit()) && plan_done(
                    plan,
                    rungs,
                    self.limit(),
                    self.factor(),
                ) && drawn(
                    reals,
                    space@,
                    evaluations(rungs),
                    freshness(rungs),
                    *old(sampler),
                    *final(sampler),
                ) && all_given(old(eval), evaluations(rungs)) && final(eval).calls() == old(
                    eval,
                ).calls() + evaluations(rungs) && sums_up(
                    out,
                    evaluations(rungs),
                    self.target(),
                    self.aim(),
                    self.limit(),
                ),
    {
        let mut ledger = Ledger {
            history: Vec::new(),
            best: None,
            total: 0,
            log: Ghost(Seq::empty()),
            fresh: Ghost(Seq::empty()),
            past: Ghost(eval.calls()),
        };
        proof {
            assert(eval.calls() + Seq::<EvalModel>::empty() =~= eval.calls());
        }
        let ghost first = *sampler;
        let ghost target = self.target();
        let ghost d = self.aim();
        let ghost limit = self.limit();
        let ghost eta = self.factor();
        let s_max = plan.halvings(self.max_resource, self.eta);
        proof {
            assert(is_halvings(plan, limit, eta, s_max));
        }
        let ghost mut rungs: Seq<Rung> = Seq::empty();
        let mut s: u64 = s_max;
        let mut more = true;
        while more
            invariant
                s <= s_max,
                target == self.target(),
                d == self.aim(),
                limit == self.limit(),
                space::drawable_space(space@),
                ledger.well_formed(target, d, limit),
                halving(rungs, target, d, limit),
                ledger.log@ == evaluations(rungs),
                ledger.fresh@ == freshness(rungs),
                first == *old(sampler),
                drawn(reals, space@, ledger.log@, ledger.fresh@, first, *sampler),
                all_given(old(eval), ledger.log@),
                ledger.past@ == old(eval).calls(),
                ledger.covers(eval.calls()),
                forall|p: Assignment, r: u64, x: Metrics| #[trigger]
                    eval.gives(p, r, x) == old(eval).gives(p, r, x),
                !more ==> ledger.log@.len() >= 1,
                eta == self.factor(),
                planned(plan, rungs, limit, eta, s_max),
                if more {
                    if rungs.len() == 0 {
                        s == s_max
                    } else {
                        rungs.last().bracket == s + 1 && ends_bracket(
                            plan,
                            rungs,
                            eta,
                            rungs.len() - 1,
                        )
                    }
                } else {
                    rungs.len() > 0 && rungs.last().bracket == 0 && ends_bracket(
                        plan,
                        rungs,
                        eta,
                        rungs.len() - 1,
                    )
                },
            decreases s + (if more {
                1int
            } else {
                0int
            }),
        {
            let asked = plan.starters(self.eta, s_max, s);
            let n: usize = if asked < 1 {
                1
            } else {
                asked
            };
            proof {
                assert(is_starters(plan, eta, s_max, s, asked));
                assert(is_planned_start(plan, eta, s_max, s, n as int));
            }
            let ghost done = rungs;
            let ghost within = *eval;
            proof {
                assert forall|k: int| 0 <= k < ledger.log@.len() implies within.gives(
                    (#[trigger] ledger.log@[k]).params,
                    ledger.log@[k].resource,
                    ledger.log@[k].metrics,
                ) by {
                    let e = ledger.log@[k];
                    assert(old(eval).gives(e.params, e.resource, e.metrics));
                }
            }
            let Ghost(all) = self.bracket(
                space,
                sampler,
                eval,
                reals,
                plan,
                n,
                s,
                &mut ledger,
                Ghost(done),
                Ghost(s_max),
                Ghost(first),
            );
            proof {
                assert forall|k: int| 0 <= k < ledger.log@.len() implies old(eval).gives(
                    (#[trigger] ledger.log@[k]).params,
                    ledger.log@[k].resource,
                    ledger.log@[k].metrics,
                ) by {
                    let e = ledger.log@[k];
                    assert(within.gives(e.params, e.resource, e.metrics));
                }
                rungs = all;
                evaluations_hold(all, done.len() as int);
            }
            if s == 0 {
                more = false;
            } else {
                s = s - 1;
            }
        }
        let evaluations = ledger.history.len();
        let total_resource = ledger.total;
        let ghost log = ledger.log@;
        let out = match ledger.best {
            Some(b) => HyperbandOutcome {
                best_params: b.params,
                best_score: b.score,
                best_resource: b.resource,
                total_resource,
                evaluations,
            },
            None => {
                let bits: u64 = 0x7ff8_0000_0000_0000;
                HyperbandOutcome {
                    best_params: ParamSet::new(),
                    best_score: Scalar::from_bits(bits),
                    best_resource: 0,
                    total_resource,
                    evaluations,
                }
            },
        };
        proof {
            assert(is_best(log, target, d, limit, ledger.best));
            if ledger.best is Some {
                let b = ledger.best->0;
                let w = choose|i: int| #[trigger]
                    is_winner(log, target, d, limit, i) && b.params@ == log[i].params && b.score
                        == score(log[i], target) && b.resource == log[i].resource;
                assert(eligible(log[w], target, limit));
                assert(is_winner(log, target, d, limit, w));
            }
            assert(sums_up(out, log, target, d, limit));
            assert(plan_done(plan, rungs, limit, eta));
        }
        out
    }
}

proof fn grew_nothing(log: Seq<EvalModel>, resource: u64, objective: Seq<char>)
    ensures
        grew(log, log, resource, Seq::empty(), objective, Seq::empty()),
{
    let new = log.skip(log.len() as int);
    assert(log.take(log.len() as int) =~= log);
    assert(configs(new) =~= Seq::<Assignment>::empty());
    assert(scores(new, objective) =~= Seq::<Scalar>::empty());
}

proof fn grew_push(
    before: Seq<EvalModel>,
    mid: Seq<EvalModel>,
    resource: u64,
    params: Seq<Assignment>,
    objective: Seq<char>,
    values: Seq<Scalar>,
    e: EvalModel,
)
    requires
        grew(before, mid, resource, params, objective, values),
        e.resource == resource,
    ensures
        grew(
            before,
            mid.push(e),
            resource,
            params.push(e.params),
            objective,
            values.push(score(e, objective)),
        ),
{
    let n = before.len() as int;
    let new = mid.skip(n);
    let after = mid.push(e);
    assert(after.skip(n) =~= new.push(e));
    assert(after.take(n) =~= mid.take(n));
    assert(configs(after.skip(n)) =~= params.push(e.params));
    assert(scores(after.skip(n), objective) =~= values.push(score(e, objective)));
}

/// Appending what the objective may give keeps a log what it may give.
proof fn given_push<E: Fidelity>(eval: &E, log: Seq<EvalModel>, e: EvalModel)
    requires
        all_given(eval, log),
        eval.gives(e.params, e.resource, e.metrics),
    ensures
        all_given(eval, log.push(e)),
{
    let after = log.push(e);
    assert forall|i: int| 0 <= i < after.len() implies eval.gives(
        (#[trigger] after[i]).params,
        after[i].resource,
        after[i].metrics,
    ) by {
        if i < log.len() {
            assert(after[i] == log[i]);
        }
    }
}

/// Evaluating configurations again leaves the draws as they were.
proof fn carried_over<S: Sampler<R>, R: Reals>(
    reals: &R,
    space: SpaceModel,
    before: Seq<EvalModel>,
    after: Seq<EvalModel>,
    flags: Seq<bool>,
    more: Seq<bool>,
    first: S,
    now: S,
)
    requires
        drawn(reals, space, before, flags, first, now),
        flags.len() == before.len() <= after.len(),
        after.take(before.len() as int) == before,
        more == flags + Seq::new((after.len() - before.len()) as nat, |i: int| false),
    ensures
        drawn(reals, space, after, more, first, now),
    decreases after.len(),
{
    if after.len() == before.len() {
        assert(after =~= before);
        assert(more =~= flags);
    } else {
        let less = after.drop_last();
        assert(less.take(before.len() as int) =~= before);
        assert(more.drop_last() =~= flags + Seq::new(
            (less.len() - before.len()) as nat,
            |i: int| false,
        ));
        carried_over(reals, space, before, less, flags, more.drop_last(), first, now);
        assert(!more.last());
    }
}

/// The evaluations of rungs hold those of each rung.
proof fn evaluations_hold(rungs: Seq<Rung>, k: int)
    requires
        0 <= k < rungs.len(),
    ensures
        evaluations(rungs).len() >= rungs[k].evals.len(),
    decreases rungs.len(),
{
    if k < rungs.len() - 1 {
        evaluations_hold(rungs.drop_last(), k);
    }
}

/// The best go on: the configurations that survive a rung stand for as many of its evaluations,
/// and no evaluation that was left behind is better than one that went on.
pub proof fn law_the_best_go_on(
    evals: Seq<EvalModel>,
    objective: Seq<char>,
    d: Direction,
    next: Seq<Assignment>,
)
    requires
        survived(evals, objective, d, next),
        forall|i: int|
            0 <= i < evals.len() ==> (#[trigger] evals[i]).metrics.contains_key(objective)
                && !evals[i].metrics[objective].nan(),
    ensures
        exists|kept: Seq<int>|
            kept.len() == next.len() && #[trigger] kept.no_duplicates() && (forall|i: int|
                0 <= i < kept.len() ==> 0 <= #[trigger] kept[i] < evals.len() && next[i]
                    == evals[kept[i]].params) && (forall|i: int, j: int|
                0 <= i < kept.len() && 0 <= j < evals.len() && !kept.contains(j) ==> !d.better(
                    (#[trigger] evals[j]).metrics[objective],
                    evals[#[trigger] kept[i]].metrics[objective],
                )),
{
    let values = scores(evals, objective);
    assert forall|i: int| 0 <= i < values.len() implies !(#[trigger] values[i]).nan() && values[i]
        == evals[i].metrics[objective] by {
        assert(evals[i].metrics.contains_key(objective));
    }
    assert(order::all_numbers(values));
    let p = choose|p: Seq<usize>| #[trigger]
        order::is_permutation(p, evals.len() as int) && (order::all_numbers(values)
            ==> order::is_ranking(values, d, p)) && next.len() <= evals.len() && next == Seq::new(
            next.len(),
            |i: int| evals[p[i] as int].params,
        );
    let kept = Seq::new(next.len(), |i: int| p[i] as int);
    assert(kept.no_duplicates()) by {
        assert forall|i: int, j: int|
            0 <= i < kept.len() && 0 <= j < kept.len() && i != j implies kept[i] != kept[j] by {
            if i < j {
                assert(p[i] != p[j]);
            } else {
                assert(p[j] != p[i]);
            }
        }
    }
    assert forall|i: int, j: int|
        0 <= i < kept.len() && 0 <= j < evals.len() && !kept.contains(j) implies !d.better(
        (#[trigger] evals[j]).metrics[objective],
        evals[#[trigger] kept[i]].metrics[objective],
    ) by {
        order::permutation_is_onto(p, evals.len() as int, j);
        let k = choose|k: int| 0 <= k < p.len() && #[trigger] p[k] == j;
        if k < next.len() {
            assert(kept[k] == j);
        }
        order::law_rankings_put_the_better_first(values, d, p, i, k);
    }
    assert forall|i: int| 0 <= i < kept.len() implies 0 <= #[trigger] kept[i] < evals.len()
        && next[i] == evals[kept[i]].params by {
        assert(p[i] < evals.len());
    }
}

/// The winner is the best of what was tried to the full: it was evaluated at the full resource
/// with a finite score, and no such evaluation is better. There is one wherever there can be.
pub proof fn law_the_winner_is_the_best_at_full_resource(
    log: Seq<EvalModel>,
    objective: Seq<char>,
    d: Direction,
    max_resource: u64,
    best: Option<Incumbent>,
    j: int,
)
    requires
        is_best(log, objective, d, max_resource, best),
        0 <= j < log.len(),
        log[j].resource >= max_resource,
        log[j].metrics.contains_key(objective),
        log[j].metrics[objective].finite(),
    ensures
        best matches Some(b) && b.resource >= max_resource && b.score.finite() && !d.better(
            log[j].metrics[objective],
            b.score,
        ) && exists|i: int|
            0 <= i < log.len() && b.params@ == (#[trigger] log[i]).params && log[i].resource
                == b.resource && log[i].metrics.contains_key(objective)
                && log[i].metrics[objective] == b.score,
{
    assert(eligible(log[j], objective, max_resource));
}

/// Hyperband runs its brackets from the highest down to the lowest: the first is as high as there
/// are halvings, the last is the zeroth, and each opens with as many fresh configurations as the
/// plan says, at least one.
pub proof fn law_brackets_go_down_to_zero<P: BracketPlan>(
    plan: &P,
    rungs: Seq<Rung>,
    max_resource: u64,
    eta: usize,
    k: int,
)
    requires
        plan_done(plan, rungs, max_resource, eta),
        0 <= k < rungs.len(),
    ensures
        rungs.last().bracket == 0,
        rungs[k].fresh <==> rungs[k].step == 0,
        k > 0 && rungs[k].step == 0 ==> rungs[k - 1].bracket == rungs[k].bracket + 1,
        k > 0 && rungs[k].step > 0 ==> rungs[k - 1].bracket == rungs[k].bracket && rungs[k - 1].step
            + 1 == rungs[k].step,
        exists|s_max: u64|
            #[trigger] call_ensures(P::halvings, (plan, max_resource, eta), s_max)
                && rungs[0].bracket == s_max && (rungs[k].step == 0 ==> exists|n: usize|
                #[trigger] call_ensures(
                    P::starters,
                    (plan, eta, s_max, rungs[k].bracket),
                    n,
                ) && rungs[k].evals.len() == if n == 0 {
                    1
                } else {
                    n as nat
                }),
{
    let s_max = choose|s_max: u64| #[trigger]
        is_halvings(plan, max_resource, eta, s_max) && planned(
            plan,
            rungs,
            max_resource,
            eta,
            s_max,
        ) && rungs.len() > 0 && rungs.last().bracket == 0 && ends_bracket(
            plan,
            rungs,
            eta,
            rungs.len() - 1,
        );
    assert(rung_planned(plan, rungs, max_resource, eta, s_max, 0));
    assert(rung_planned(plan, rungs, max_resource, eta, s_max, k));
    assert(call_ensures(P::halvings, (plan, max_resource, eta), s_max));
    if rungs[k].step == 0 {
        let n = choose|n: usize| #[trigger]
            is_starters(plan, eta, s_max, rungs[k].bracket, n) && rungs[k].evals.len() == if n < 1 {
                1
            } else {
                n as int
            };
        assert(call_ensures(P::starters, (plan, eta, s_max, rungs[k].bracket), n));
    }
}

/// A rung has the resource that the plan gives it, at least one and at most all of it, and behind
/// the first rung of a bracket as many configurations as the plan keeps of those that the bracket
/// opened with.
pub proof fn law_rungs_have_what_the_plan_gives_them<P: BracketPlan>(
    plan: &P,
    rungs: Seq<Rung>,
    max_resource: u64,
    eta: usize,
    k: int,
)
    requires
        plan_done(plan, rungs, max_resource, eta),
        0 <= k < rungs.len(),
        max_resource >= 1,
    ensures
        1 <= rungs[k].resource <= max_resource,
        exists|r: u64|
            #[trigger] call_ensures(
                P::resource,
                (plan, max_resource, eta, rungs[k].bracket, rungs[k].step),
                r,
            ) && (1 <= r <= max_resource ==> rungs[k].resource == r) && (r == 0
                ==> rungs[k].resource == 1) && (r > max_resource ==> rungs[k].resource
                == max_resource),
        rungs[k].step > 0 ==> exists|keep: usize|
            #[trigger] call_ensures(
                P::survivors,
                (
                    plan,
                    eta,
                    rungs[k - 1 - rungs[k - 1].step].evals.len() as usize,
                    (rungs[k].step - 1) as u64,
                ),
                keep,
            ) && keep > 0 && rungs[k].evals.len() <= keep && rungs[k].evals.len()
                <= rungs[k - 1].evals.len() && (rungs[k].evals.len() == keep
                || rungs[k].evals.len() == rungs[k - 1].evals.len()),
{
    let s_max = choose|s_max: u64| #[trigger]
        is_halvings(plan, max_resource, eta, s_max) && planned(
            plan,
            rungs,
            max_resource,
            eta,
            s_max,
        ) && rungs.len() > 0 && rungs.last().bracket == 0 && ends_bracket(
            plan,
            rungs,
            eta,
            rungs.len() - 1,
        );
    assert(rung_planned(plan, rungs, max_resource, eta, s_max, k));
    let g = rungs[k];
    let r = choose|r: u64| #[trigger]
        is_resource(plan, max_resource, eta, g.bracket, g.step, r) && g.resource == if r < 1 {
            1
        } else if r > max_resource {
            max_resource
        } else {
            r
        };
    assert(call_ensures(P::resource, (plan, max_resource, eta, g.bracket, g.step), r));
    if g.step > 0 {
        let before = rungs[k - 1];
        let keep = choose|keep: usize| #[trigger]
            is_planned_keep(plan, rungs, eta, k - 1, keep) && keep > 0 && g.evals.len() == if keep
                < before.evals.len() {
                keep as nat
            } else {
                before.evals.len()
            };
        assert(call_ensures(
            P::survivors,
            (
                plan,
                eta,
                rungs[k - 1 - before.step].evals.len() as usize,
                (g.step - 1) as u64,
            ),
            keep,
        ));
    }
}

} // verus!
