//! Runs: what the loop of a study does, step by step, and what follows for its trials.
//!
//! A run asks for a batch of trials, evaluates them, tells the sampler how they went, and goes on
//! until its budget is spent. The functions here say which steps are a run; a study's loop is
//! held to them.

use vstd::prelude::*;
#[allow(unused_imports)]
use std::time::Instant;
#[allow(unused_imports)]
use crate::budget::{Budget, Consumption, EpochBudget, TrialBudget, WallTimeBudget};
#[allow(unused_imports)]
use crate::objective::{Objective, Outcome, ReportLog};
#[allow(unused_imports)]
use crate::pruner::{NoPruner, Pruner};
use crate::reals::Reals;
#[allow(unused_imports)]
use crate::sampler::{Sampler, GOLDEN};
#[allow(unused_imports)]
use crate::scalar::Scalar;
use crate::space::SpaceModel;
use crate::trial::HistoryModel;
#[allow(unused_imports)]
use crate::trial::{Metrics, TrialModel, TrialState};
#[allow(unused_imports)]
use crate::clock;
#[allow(unused_imports)]
use crate::storage;

verus! {

/// What a run goes by and does not change.
pub struct Rig<P, R> {
    /// The search space.
    pub space: SpaceModel,
    /// The base seed of the study.
    pub seed: u64,
    /// How many trials are asked for at a time.
    pub batch: usize,
    /// Whether the store fails only on ids that it does not hold.
    pub dependable: bool,
    /// Who judges running trials.
    pub pruner: P,
    /// Who is asked for floating-point arithmetic.
    pub reals: R,
}

/// What a run works on: the trials of its study, and its sampler.
pub struct Bench<A> {
    /// The trials of the study.
    pub trials: HistoryModel,
    /// The sampler.
    pub sampler: A,
}

/// The seed of the `index`-th trial of a study.
pub open spec fn trial_seed(base_seed: u64, index: int) -> u64 {
    base_seed.wrapping_add((index as u64).wrapping_mul(GOLDEN))
}

/// How a trial ends by what its evaluation came to and whether it was asked to stop.
pub open spec fn ending(outcome: Outcome, stopped: bool) -> (TrialState, Option<Metrics>) {
    match outcome {
        Ok(m) => (
            if stopped {
                TrialState::Pruned
            } else {
                TrialState::Complete
            },
            Some(m),
        ),
        Err(_) => (TrialState::Failed, None),
    }
}

/// Whether one trial has been asked for: the sampler has proposed its parameters for the history
/// so far, its seed comes from its number, and it runs without having reported.
pub open spec fn asked<A: Sampler<R>, P, R: Reals>(
    rig: Rig<P, R>,
    before: Bench<A>,
    after: Bench<A>,
) -> bool {
    let t = after.trials.last();
    &&& after.trials == before.trials.push(t)
    &&& before.sampler.proposes(&rig.reals, rig.space, before.trials, t.params, after.sampler)
    &&& t.seed == trial_seed(rig.seed, before.trials.len() as int)
    &&& t.state == TrialState::Running
    &&& t.reports == Seq::<crate::trial::ReportModel>::empty()
    &&& t.final_metrics is None
}

/// Whether `n` trials have been asked for, one after the other.
pub open spec fn asked_in_turn<A: Sampler<R>, P, R: Reals>(
    rig: Rig<P, R>,
    n: nat,
    before: Bench<A>,
    after: Bench<A>,
) -> bool
    decreases n,
{
    if n == 0 {
        after == before
    } else {
        exists|mid: Bench<A>|
            asked_in_turn(rig, (n - 1) as nat, before, mid) && #[trigger] asked(rig, mid, after)
    }
}

/// The history with the reports of trial `at` replaced by what is on file after `log`.
pub open spec fn with_log(history: HistoryModel, at: int, log: ReportLog) -> HistoryModel {
    history.update(
        at,
        (TrialModel { reports: storage::filed(history[at].reports, log), ..history[at] }),
    )
}

/// Whether `verdict` may be the pruner's verdict on trial `at` at the last report of `log`.
pub open spec fn rules<P: Pruner<R>, R: Reals>(
    pruner: P,
    reals: R,
    history: HistoryModel,
    at: int,
    log: ReportLog,
    verdict: bool,
) -> bool {
    pruner.judges(
        &reals,
        storage::filed(history[at].reports, log),
        with_log(history, at, log),
        verdict,
    )
}

/// Whether trial `at` is asked to stop once it has made the reports of `log`: `stop` says whether
/// any verdict of the pruner, given at each of them, was to stop.
pub open spec fn judged<P: Pruner<R>, R: Reals>(
    pruner: P,
    reals: R,
    history: HistoryModel,
    at: int,
    log: ReportLog,
    stop: bool,
) -> bool
    decreases log.len(),
{
    let rest = log.drop_last();
    if log.len() == 0 {
        !stop
    } else if stop {
        ||| judged(pruner, reals, history, at, rest, true) && (rules(
            pruner,
            reals,
            history,
            at,
            log,
            true,
        ) || rules(pruner, reals, history, at, log, false))
        ||| judged(pruner, reals, history, at, rest, false) && rules(
            pruner,
            reals,
            history,
            at,
            log,
            true,
        )
    } else {
        judged(pruner, reals, history, at, rest, false) && rules(
            pruner,
            reals,
            history,
            at,
            log,
            false,
        )
    }
}

/// Whether `b` is trial `a` at another time: who it is has not changed.
pub open spec fn same_trial(a: TrialModel, b: TrialModel) -> bool {
    &&& b.id == a.id
    &&& b.study_id == a.study_id
    &&& b.params == a.params
    &&& b.seed == a.seed
    &&& b.env == a.env
}

/// Whether trial `at` ends as `t` by an evaluation that made the reports of `log` and came to
/// `outcome`, asked to stop or not.
pub open spec fn ends_as<O: Objective, P: Pruner<R>, R: Reals>(
    rig: Rig<P, R>,
    objective: O,
    history: HistoryModel,
    at: int,
    t: TrialModel,
    log: ReportLog,
    outcome: Outcome,
    stop: bool,
) -> bool {
    &&& objective.allows(history[at].params, log, stop, outcome)
    &&& judged(rig.pruner, rig.reals, history, at, log, stop)
    &&& t.reports == storage::filed(history[at].reports, log)
    &&& t.state == ending(outcome, stop).0
    &&& t.final_metrics == ending(outcome, stop).1
}

/// Whether trial `at` has been evaluated and nothing else has changed. Of a store that may fail
/// on anything, nothing is said of how the trial ended.
pub open spec fn evaluated<O: Objective, P: Pruner<R>, R: Reals>(
    rig: Rig<P, R>,
    objective: O,
    at: int,
    before: HistoryModel,
    after: HistoryModel,
) -> bool {
    &&& 0 <= at < before.len()
    &&& after == before.update(at, after[at])
    &&& same_trial(before[at], after[at])
    &&& rig.dependable ==> exists|log: ReportLog, outcome: Outcome, stop: bool| #[trigger]
        ends_as(rig, objective, before, at, after[at], log, outcome, stop)
}

/// Whether the last of `n` trials from trial `from` on has been evaluated.
pub open spec fn evaluated_next<O: Objective, P: Pruner<R>, R: Reals>(
    rig: Rig<P, R>,
    objective: O,
    from: int,
    n: nat,
    before: HistoryModel,
    after: HistoryModel,
) -> bool {
    evaluated(rig, objective, from + n - 1, before, after)
}

/// Whether `n` trials from trial `from` on have been evaluated, one after the other.
pub open spec fn evaluated_in_turn<O: Objective, P: Pruner<R>, R: Reals>(
    rig: Rig<P, R>,
    objective: O,
    from: int,
    n: nat,
    before: HistoryModel,
    after: HistoryModel,
) -> bool
    decreases n,
{
    if n == 0 {
        after == before
    } else {
        exists|mid: HistoryModel|
            evaluated_in_turn(rig, objective, from, (n - 1) as nat, before, mid)
                && #[trigger] evaluated_next(rig, objective, from, n, mid, after)
    }
}

/// The sum of two counts, or the greatest count.
pub open spec fn saturating(a: u64, b: u64) -> u64 {
    if a + b > u64::MAX {
        u64::MAX
    } else {
        (a + b) as u64
    }
}

/// The last step that a trial reported, or zero.
pub open spec fn last_step(t: TrialModel) -> u64 {
    if t.reports.len() == 0 {
        0
    } else {
        t.reports.last().step
    }
}

/// A tally with a trial counted: its last step in epochs, and its reports in steps.
pub open spec fn tallied(c: Consumption, t: TrialModel) -> Consumption {
    Consumption {
        epochs: saturating(c.epochs, last_step(t)),
        steps: saturating(c.steps, t.reports.len() as u64),
        ..c
    }
}

/// Whether a trial has been counted and the sampler told of it. A store that may fail on anything
/// may have kept the trial from both.
pub open spec fn taken_in<A: Sampler<R>, R: Reals>(
    dependable: bool,
    t: TrialModel,
    before: (A, Consumption),
    after: (A, Consumption),
) -> bool {
    ||| before.0.observes(t, after.0) && after.1 == tallied(before.1, t)
    ||| !dependable && after == before
}

/// Whether the last of `n` trials from trial `from` on has been counted.
pub open spec fn taken_in_next<A: Sampler<R>, R: Reals>(
    dependable: bool,
    trials: HistoryModel,
    from: int,
    n: nat,
    before: (A, Consumption),
    after: (A, Consumption),
) -> bool {
    taken_in::<A, R>(dependable, trials[from + n - 1], before, after)
}

/// Whether `n` trials from trial `from` on have been counted, one after the other.
pub open spec fn taken_in_turn<A: Sampler<R>, R: Reals>(
    dependable: bool,
    trials: HistoryModel,
    from: int,
    n: nat,
    before: (A, Consumption),
    after: (A, Consumption),
) -> bool
    decreases n,
{
    if n == 0 {
        after == before
    } else {
        exists|mid: (A, Consumption)|
            taken_in_turn::<A, R>(dependable, trials, from, (n - 1) as nat, before, mid)
                && #[trigger] taken_in_next::<A, R>(dependable, trials, from, n, mid, after)
    }
}

/// A tally with `j` more trials.
pub open spec fn with_trials(c: Consumption, j: nat) -> Consumption {
    Consumption { trials: (c.trials + j) as u64, ..c }
}

/// Whether a batch has `n` trials: the budget allowed each of them, and the batch is full or the
/// budget allows no more.
pub open spec fn fills<B: Budget>(budget: B, batch: usize, c: Consumption, n: nat) -> bool {
    &&& n <= batch
    &&& c.trials + n <= u64::MAX
    &&& forall|j: nat| j < n ==> !budget.exhausted(#[trigger] with_trials(c, j))
    &&& n < batch ==> budget.exhausted(with_trials(c, n))
}

/// Whether the trials of a batch that were asked for have been evaluated and counted.
pub open spec fn conducted<O: Objective, A: Sampler<R>, P: Pruner<R>, R: Reals>(
    rig: Rig<P, R>,
    objective: O,
    n: nat,
    begun: Bench<A>,
    after: Bench<A>,
    before_tally: Consumption,
    tally: Consumption,
) -> bool {
    let from = begun.trials.len() - n;
    &&& evaluated_in_turn(rig, objective, from, n, begun.trials, after.trials)
    &&& taken_in_turn::<A, R>(
        rig.dependable,
        after.trials,
        from,
        n,
        (begun.sampler, before_tally),
        (after.sampler, tally),
    )
}

/// Whether a run is over: its budget is exhausted, or its tally could not count another batch.
pub open spec fn is_over<B: Budget, P, R>(rig: Rig<P, R>, budget: B, c: Consumption) -> bool {
    budget.exhausted(c) || c.trials > u64::MAX - rig.batch
}

/// Whether a run goes from `before` to `after` by one batch: the run was not over, the trials
/// were asked for, evaluated and counted, and the time since the run began was read off the clock.
pub open spec fn leg<O: Objective, B: Budget, A: Sampler<R>, P: Pruner<R>, R: Reals>(
    rig: Rig<P, R>,
    objective: O,
    budget: B,
    began: Instant,
    before: (Bench<A>, Consumption),
    after: (Bench<A>, Consumption),
) -> bool {
    &&& !is_over(rig, budget, before.1)
    &&& exists|n: nat, begun: Bench<A>, tally: Consumption|
        n > 0 && fills(budget, rig.batch, before.1, n) && #[trigger] asked_in_turn(
            rig,
            n,
            before.0,
            begun,
        ) && #[trigger] conducted(rig, objective, n, begun, after.0, before.1, tally) && after.1
            == (Consumption { wall_time: after.1.wall_time, ..with_trials(tally, n) })
    &&& clock::is_since(began, after.1.wall_time)
}

/// The tally of a run that has not begun.
pub open spec fn nothing_spent() -> Consumption {
    Consumption {
        trials: 0,
        wall_time: 0,
        epochs: 0,
        steps: 0,
        gpu_hours: Scalar { bits: 0 },
    }
}

/// Whether a run of `k` batches leads from `start` to `now`, having spent `c` since it began.
pub open spec fn ran<O: Objective, B: Budget, A: Sampler<R>, P: Pruner<R>, R: Reals>(
    rig: Rig<P, R>,
    objective: O,
    budget: B,
    began: Instant,
    k: nat,
    start: Bench<A>,
    now: Bench<A>,
    c: Consumption,
) -> bool
    decreases k,
{
    if k == 0 {
        now == start && c == nothing_spent()
    } else {
        exists|mid: (Bench<A>, Consumption)|
            ran(rig, objective, budget, began, (k - 1) as nat, start, mid.0, mid.1)
                && #[trigger] leg(rig, objective, budget, began, mid, (now, c))
    }
}

/// Whether a trial has ended: with metrics when it completed or was pruned, without when it
/// failed.
pub open spec fn settled(t: TrialModel) -> bool {
    match t.state {
        TrialState::Complete => t.final_metrics is Some,
        TrialState::Pruned => t.final_metrics is Some,
        TrialState::Failed => t.final_metrics is None,
        _ => false,
    }
}

/// The history `now` is `before` with `total` trials behind it, seeded by their number, the first
/// `done` of which have ended if the store can be depended on.
pub open spec fn advanced(
    before: HistoryModel,
    now: HistoryModel,
    base_seed: u64,
    total: int,
    done: int,
    dependable: bool,
) -> bool {
    &&& now.len() == before.len() + total
    &&& 0 <= done <= total
    &&& forall|i: int| 0 <= i < before.len() ==> #[trigger] now[i] == before[i]
    &&& forall|i: int|
        before.len() <= i < now.len() ==> (#[trigger] now[i]).seed == trial_seed(base_seed, i)
    &&& dependable ==> forall|i: int|
        before.len() <= i < before.len() + done ==> settled(#[trigger] now[i])
}

/// Asking appends trials, seeded by their number, and leaves the others as they were.
pub proof fn law_asking_appends<A: Sampler<R>, P, R: Reals>(
    rig: Rig<P, R>,
    n: nat,
    before: Bench<A>,
    after: Bench<A>,
)
    requires
        asked_in_turn(rig, n, before, after),
    ensures
        advanced(before.trials, after.trials, rig.seed, n as int, 0, rig.dependable),
    decreases n,
{
    if n > 0 {
        let mid = choose|mid: Bench<A>|
            asked_in_turn(rig, (n - 1) as nat, before, mid) && #[trigger] asked(rig, mid, after);
        law_asking_appends(rig, (n - 1) as nat, before, mid);
        assert forall|i: int| 0 <= i < before.trials.len() implies #[trigger] after.trials[i]
            == before.trials[i] by {
            assert(after.trials[i] == mid.trials[i]);
        }
        assert forall|i: int| before.trials.len() <= i < after.trials.len() implies (
        #[trigger] after.trials[i]).seed == trial_seed(rig.seed, i) by {
            if i < mid.trials.len() {
                assert(after.trials[i] == mid.trials[i]);
            }
        }
    }
}

proof fn evaluating_settles<O: Objective, P: Pruner<R>, R: Reals>(
    rig: Rig<P, R>,
    objective: O,
    from: int,
    n: nat,
    before: HistoryModel,
    after: HistoryModel,
)
    requires
        evaluated_in_turn(rig, objective, from, n, before, after),
        0 <= from,
    ensures
        after.len() == before.len(),
        from + n <= before.len() || n == 0,
        forall|i: int|
            0 <= i < before.len() && !(from <= i < from + n) ==> #[trigger] after[i] == before[i],
        forall|i: int|
            from <= i < from + n ==> same_trial(before[i], #[trigger] after[i]) && (rig.dependable
                ==> settled(after[i])),
    decreases n,
{
    if n > 0 {
        let mid = choose|mid: HistoryModel|
            evaluated_in_turn(rig, objective, from, (n - 1) as nat, before, mid)
                && #[trigger] evaluated_next(rig, objective, from, n, mid, after);
        evaluating_settles(rig, objective, from, (n - 1) as nat, before, mid);
        let at = from + n - 1;
        assert(after == mid.update(at, after[at]));
        assert forall|i: int| from <= i < from + n implies same_trial(before[i], #[trigger] after[i])
            && (rig.dependable ==> settled(after[i])) by {
            if i < at {
                assert(after[i] == mid[i]);
            }
        }
        assert forall|i: int| 0 <= i < before.len() && !(from <= i < from + n) implies
            #[trigger] after[i] == before[i] by {
            assert(after[i] == mid[i]);
        }
    }
}

proof fn counting_keeps_trials<A: Sampler<R>, R: Reals>(
    dependable: bool,
    trials: HistoryModel,
    from: int,
    n: nat,
    before: (A, Consumption),
    after: (A, Consumption),
)
    requires
        taken_in_turn::<A, R>(dependable, trials, from, n, before, after),
    ensures
        after.1.trials == before.1.trials,
    decreases n,
{
    if n > 0 {
        let mid = choose|mid: (A, Consumption)|
            taken_in_turn::<A, R>(dependable, trials, from, (n - 1) as nat, before, mid)
                && #[trigger] taken_in_next::<A, R>(dependable, trials, from, n, mid, after);
        counting_keeps_trials::<A, R>(dependable, trials, from, (n - 1) as nat, before, mid);
    }
}

/// A batch appends its trials, seeded by their number, and leaves the others as they were.
pub proof fn law_batch_appends<O: Objective, A: Sampler<R>, P: Pruner<R>, R: Reals>(
    rig: Rig<P, R>,
    objective: O,
    n: nat,
    before: Bench<A>,
    begun: Bench<A>,
    after: Bench<A>,
    spent: Consumption,
    tally: Consumption,
)
    requires
        asked_in_turn(rig, n, before, begun),
        conducted(rig, objective, n, begun, after, spent, tally),
    ensures
        advanced(before.trials, after.trials, rig.seed, n as int, n as int, rig.dependable),
        tally.trials == spent.trials,
{
    law_asking_appends(rig, n, before, begun);
    let from = begun.trials.len() - n;
    evaluating_settles(rig, objective, from, n, begun.trials, after.trials);
    counting_keeps_trials::<A, R>(
        rig.dependable,
        after.trials,
        from,
        n,
        (begun.sampler, spent),
        (after.sampler, tally),
    );
    assert forall|i: int| 0 <= i < before.trials.len() implies #[trigger] after.trials[i]
        == before.trials[i] by {
        assert(after.trials[i] == begun.trials[i]);
    }
    assert forall|i: int| before.trials.len() <= i < after.trials.len() implies (
    #[trigger] after.trials[i]).seed == trial_seed(rig.seed, i) by {
        assert(same_trial(begun.trials[i], after.trials[i]));
    }
}

/// A run appends as many trials as it has tallied, seeded by their number, leaves the others as
/// they were, and settles every one of its own if the store can be depended on.
pub proof fn law_run_appends<O: Objective, B: Budget, A: Sampler<R>, P: Pruner<R>, R: Reals>(
    rig: Rig<P, R>,
    objective: O,
    budget: B,
    began: Instant,
    k: nat,
    start: Bench<A>,
    now: Bench<A>,
    c: Consumption,
)
    requires
        ran(rig, objective, budget, began, k, start, now, c),
    ensures
        advanced(
            start.trials,
            now.trials,
            rig.seed,
            c.trials as int,
            c.trials as int,
            rig.dependable,
        ),
    decreases k,
{
    if k > 0 {
        let mid = choose|mid: (Bench<A>, Consumption)|
            ran(rig, objective, budget, began, (k - 1) as nat, start, mid.0, mid.1)
                && #[trigger] leg(rig, objective, budget, began, mid, (now, c));
        law_run_appends(rig, objective, budget, began, (k - 1) as nat, start, mid.0, mid.1);
        let (n, begun, tally) = choose|n: nat, begun: Bench<A>, tally: Consumption|
            n > 0 && fills(budget, rig.batch, mid.1, n) && #[trigger] asked_in_turn(
                rig,
                n,
                mid.0,
                begun,
            ) && #[trigger] conducted(rig, objective, n, begun, now, mid.1, tally) && c == (
            Consumption { wall_time: c.wall_time, ..with_trials(tally, n) });
        law_batch_appends(rig, objective, n, mid.0, begun, now, mid.1, tally);
        assert forall|i: int| 0 <= i < start.trials.len() implies #[trigger] now.trials[i]
            == start.trials[i] by {
            assert(now.trials[i] == mid.0.trials[i]);
        }
        assert forall|i: int| start.trials.len() <= i < now.trials.len() implies (
        #[trigger] now.trials[i]).seed == trial_seed(rig.seed, i) by {
            if i < mid.0.trials.len() {
                assert(now.trials[i] == mid.0.trials[i]);
            }
        }
        if rig.dependable {
            assert forall|i: int| start.trials.len() <= i < now.trials.len() implies settled(
                #[trigger] now.trials[i],
            ) by {
                if i < mid.0.trials.len() {
                    assert(now.trials[i] == mid.0.trials[i]);
                }
            }
        }
    }
}

/// A run goes on by a batch.
pub proof fn run_goes_on<O: Objective, B: Budget, A: Sampler<R>, P: Pruner<R>, R: Reals>(
    rig: Rig<P, R>,
    objective: O,
    budget: B,
    began: Instant,
    k: nat,
    start: Bench<A>,
    before: (Bench<A>, Consumption),
    n: nat,
    begun: Bench<A>,
    tally: Consumption,
    after: (Bench<A>, Consumption),
)
    requires
        ran(rig, objective, budget, began, k, start, before.0, before.1),
        !is_over(rig, budget, before.1),
        n > 0,
        fills(budget, rig.batch, before.1, n),
        asked_in_turn(rig, n, before.0, begun),
        conducted(rig, objective, n, begun, after.0, before.1, tally),
        after.1 == (Consumption { wall_time: after.1.wall_time, ..with_trials(tally, n) }),
        clock::is_since(began, after.1.wall_time),
    ensures
        ran(rig, objective, budget, began, k + 1, start, after.0, after.1),
{
    assert(leg(rig, objective, budget, began, before, after));
    let next = k + 1;
    assert((next - 1) as nat == k);
    assert(leg(rig, objective, budget, began, before, (after.0, after.1)));
}

/// A run for a number of trials never exceeds it, and one that is over has reached it.
pub proof fn law_trial_budget_is_met<O: Objective, A: Sampler<R>, P: Pruner<R>, R: Reals>(
    rig: Rig<P, R>,
    objective: O,
    max: u64,
    began: Instant,
    k: nat,
    start: Bench<A>,
    now: Bench<A>,
    c: Consumption,
)
    requires
        ran(rig, objective, (TrialBudget { max_trials: max }), began, k, start, now, c),
    ensures
        c.trials <= max,
        is_over(rig, (TrialBudget { max_trials: max }), c) && max <= u64::MAX - rig.batch
            ==> c.trials == max,
{
    if k > 0 {
        let budget = TrialBudget { max_trials: max };
        let mid = choose|mid: (Bench<A>, Consumption)|
            ran(rig, objective, budget, began, (k - 1) as nat, start, mid.0, mid.1)
                && #[trigger] leg(rig, objective, budget, began, mid, (now, c));
        let (n, begun, tally) = choose|n: nat, begun: Bench<A>, tally: Consumption|
            n > 0 && fills(budget, rig.batch, mid.1, n) && #[trigger] asked_in_turn(
                rig,
                n,
                mid.0,
                begun,
            ) && #[trigger] conducted(rig, objective, n, begun, now, mid.1, tally) && c == (
            Consumption { wall_time: c.wall_time, ..with_trials(tally, n) });
        law_batch_appends(rig, objective, n, mid.0, begun, now, mid.1, tally);
        let last = (n - 1) as nat;
        assert(!budget.exhausted(with_trials(mid.1, last)));
    }
}

/// Whether trial `i` of a study has ended as `t` by an evaluation of its parameters, before which
/// it had reported nothing.
pub open spec fn evaluated_as<O: Objective, P: Pruner<R>, R: Reals>(
    rig: Rig<P, R>,
    objective: O,
    i: int,
    t: TrialModel,
) -> bool {
    exists|history: HistoryModel, log: ReportLog, outcome: Outcome, stop: bool| #[trigger]
        ends_as(rig, objective, history, i, t, log, outcome, stop) && history[i].params == t.params
            && history[i].reports == Seq::<crate::trial::ReportModel>::empty()
}

proof fn asking_leaves_blank<A: Sampler<R>, P, R: Reals>(
    rig: Rig<P, R>,
    n: nat,
    before: Bench<A>,
    after: Bench<A>,
)
    requires
        asked_in_turn(rig, n, before, after),
    ensures
        after.trials.len() == before.trials.len() + n,
        forall|i: int|
            before.trials.len() <= i < after.trials.len() ==> (#[trigger] after.trials[i]).reports
                == Seq::<crate::trial::ReportModel>::empty(),
    decreases n,
{
    if n > 0 {
        let mid = choose|mid: Bench<A>|
            asked_in_turn(rig, (n - 1) as nat, before, mid) && #[trigger] asked(rig, mid, after);
        asking_leaves_blank(rig, (n - 1) as nat, before, mid);
        assert forall|i: int| before.trials.len() <= i < after.trials.len() implies (
        #[trigger] after.trials[i]).reports == Seq::<crate::trial::ReportModel>::empty() by {
            if i < mid.trials.len() {
                assert(after.trials[i] == mid.trials[i]);
            }
        }
    }
}

proof fn evaluating_ends<O: Objective, P: Pruner<R>, R: Reals>(
    rig: Rig<P, R>,
    objective: O,
    from: int,
    n: nat,
    before: HistoryModel,
    after: HistoryModel,
)
    requires
        evaluated_in_turn(rig, objective, from, n, before, after),
        0 <= from,
        rig.dependable,
        forall|i: int|
            from <= i < from + n ==> (#[trigger] before[i]).reports == Seq::<
                crate::trial::ReportModel,
            >::empty(),
    ensures
        forall|i: int|
            from <= i < from + n ==> evaluated_as(rig, objective, i, #[trigger] after[i]),
    decreases n,
{
    if n > 0 {
        let mid = choose|mid: HistoryModel|
            evaluated_in_turn(rig, objective, from, (n - 1) as nat, before, mid)
                && #[trigger] evaluated_next(rig, objective, from, n, mid, after);
        evaluating_ends(rig, objective, from, (n - 1) as nat, before, mid);
        evaluating_settles(rig, objective, from, (n - 1) as nat, before, mid);
        let at = from + n - 1;
        assert(after == mid.update(at, after[at]));
        assert(mid[at] == before[at]);
        let (log, outcome, stop) = choose|log: ReportLog, outcome: Outcome, stop: bool|
            #[trigger]
            ends_as(rig, objective, mid, at, after[at], log, outcome, stop);
        assert(ends_as(rig, objective, mid, at, after[at], log, outcome, stop));
        assert forall|i: int| from <= i < from + n implies evaluated_as(
            rig,
            objective,
            i,
            #[trigger] after[i],
        ) by {
            if i < at {
                assert(after[i] == mid[i]);
            }
        }
    }
}

/// Every new trial of a run ends by an evaluation of its own parameters: failed and without
/// metrics if the objective failed, and with the metrics that the objective returned otherwise,
/// pruned if the pruner had asked it to stop and complete if not.
pub proof fn law_trials_end_as_evaluated<
    O: Objective,
    B: Budget,
    A: Sampler<R>,
    P: Pruner<R>,
    R: Reals,
>(
    rig: Rig<P, R>,
    objective: O,
    budget: B,
    began: Instant,
    k: nat,
    start: Bench<A>,
    now: Bench<A>,
    c: Consumption,
)
    requires
        ran(rig, objective, budget, began, k, start, now, c),
        rig.dependable,
    ensures
        forall|i: int|
            start.trials.len() <= i < now.trials.len() ==> evaluated_as(
                rig,
                objective,
                i,
                #[trigger] now.trials[i],
            ),
    decreases k,
{
    if k > 0 {
        let mid = choose|mid: (Bench<A>, Consumption)|
            ran(rig, objective, budget, began, (k - 1) as nat, start, mid.0, mid.1)
                && #[trigger] leg(rig, objective, budget, began, mid, (now, c));
        law_trials_end_as_evaluated(
            rig,
            objective,
            budget,
            began,
            (k - 1) as nat,
            start,
            mid.0,
            mid.1,
        );
        let (n, begun, tally) = choose|n: nat, begun: Bench<A>, tally: Consumption|
            n > 0 && fills(budget, rig.batch, mid.1, n) && #[trigger] asked_in_turn(
                rig,
                n,
                mid.0,
                begun,
            ) && #[trigger] conducted(rig, objective, n, begun, now, mid.1, tally) && c == (
            Consumption { wall_time: c.wall_time, ..with_trials(tally, n) });
        law_batch_appends(rig, objective, n, mid.0, begun, now, mid.1, tally);
        asking_leaves_blank(rig, n, mid.0, begun);
        evaluating_ends(
            rig,
            objective,
            begun.trials.len() - n,
            n,
            begun.trials,
            now.trials,
        );
        assert forall|i: int| start.trials.len() <= i < now.trials.len() implies evaluated_as(
            rig,
            objective,
            i,
            #[trigger] now.trials[i],
        ) by {
            if i < mid.0.trials.len() {
                assert(now.trials[i] == mid.0.trials[i]);
            }
        }
    }
}

proof fn unpruned_trials_go_on<R: Reals>(
    reals: R,
    history: HistoryModel,
    at: int,
    log: ReportLog,
    stop: bool,
)
    requires
        judged(NoPruner, reals, history, at, log, stop),
    ensures
        !stop,
    decreases log.len(),
{
    if log.len() > 0 && stop {
        if judged(NoPruner, reals, history, at, log.drop_last(), true) {
            unpruned_trials_go_on(reals, history, at, log.drop_last(), true);
        }
    }
}

/// A run without a pruner prunes no trial.
pub proof fn law_unpruned_runs_prune_nothing<O: Objective, B: Budget, A: Sampler<R>, R: Reals>(
    rig: Rig<NoPruner, R>,
    objective: O,
    budget: B,
    began: Instant,
    k: nat,
    start: Bench<A>,
    now: Bench<A>,
    c: Consumption,
)
    requires
        ran(rig, objective, budget, began, k, start, now, c),
        rig.dependable,
    ensures
        forall|i: int|
            start.trials.len() <= i < now.trials.len() ==> (#[trigger] now.trials[i]).state
                != TrialState::Pruned,
{
    law_trials_end_as_evaluated(rig, objective, budget, began, k, start, now, c);
    assert forall|i: int| start.trials.len() <= i < now.trials.len() implies (
    #[trigger] now.trials[i]).state != TrialState::Pruned by {
        let t = now.trials[i];
        assert(evaluated_as(rig, objective, i, t));
        let (history, log, outcome, stop) = choose|
            history: HistoryModel,
            log: ReportLog,
            outcome: Outcome,
            stop: bool,
        | #[trigger]
            ends_as(rig, objective, history, i, t, log, outcome, stop) && history[i].params
                == t.params && history[i].reports == Seq::<crate::trial::ReportModel>::empty();
        assert(rig.pruner == NoPruner);
        unpruned_trials_go_on(rig.reals, history, i, log, stop);
    }
}

/// The epochs of `n` trials from trial `from` on: the last step that each reported.
pub open spec fn epochs_in(trials: HistoryModel, from: int, n: nat) -> nat
    decreases n,
{
    if n == 0 {
        0
    } else {
        epochs_in(trials, from, (n - 1) as nat) + last_step(trials[from + n - 1]) as nat
    }
}

/// The steps of `n` trials from trial `from` on: how often each reported.
pub open spec fn steps_in(trials: HistoryModel, from: int, n: nat) -> nat
    decreases n,
{
    if n == 0 {
        0
    } else {
        steps_in(trials, from, (n - 1) as nat) + (trials[from + n - 1].reports.len() as u64) as nat
    }
}

/// A count, or the greatest one that fits.
pub open spec fn capped(n: nat) -> u64 {
    if n > u64::MAX {
        u64::MAX
    } else {
        n as u64
    }
}

proof fn sums_join(trials: HistoryModel, from: int, a: nat, n: nat)
    ensures
        epochs_in(trials, from, a + n) == epochs_in(trials, from, a) + epochs_in(
            trials,
            from + a,
            n,
        ),
        steps_in(trials, from, a + n) == steps_in(trials, from, a) + steps_in(trials, from + a, n),
    decreases n,
{
    if n > 0 {
        sums_join(trials, from, a, (n - 1) as nat);
        assert(a + n - 1 == a + (n - 1) as nat);
        assert(from + a + n - 1 == from + (a + n) - 1);
    }
}

proof fn sums_agree(a: HistoryModel, b: HistoryModel, from: int, n: nat)
    requires
        0 <= from,
        from + n <= a.len(),
        a.len() <= b.len(),
        forall|i: int| 0 <= i < a.len() ==> #[trigger] b[i] == a[i],
    ensures
        epochs_in(a, from, n) == epochs_in(b, from, n),
        steps_in(a, from, n) == steps_in(b, from, n),
    decreases n,
{
    if n > 0 {
        sums_agree(a, b, from, (n - 1) as nat);
        assert(b[from + n - 1] == a[from + n - 1]);
    }
}

proof fn counting_sums_up<A: Sampler<R>, R: Reals>(
    trials: HistoryModel,
    from: int,
    n: nat,
    before: (A, Consumption),
    after: (A, Consumption),
    epochs: nat,
    steps: nat,
)
    requires
        taken_in_turn::<A, R>(true, trials, from, n, before, after),
        before.1.epochs == capped(epochs),
        before.1.steps == capped(steps),
    ensures
        after.1.epochs == capped(epochs + epochs_in(trials, from, n)),
        after.1.steps == capped(steps + steps_in(trials, from, n)),
    decreases n,
{
    if n > 0 {
        let mid = choose|mid: (A, Consumption)|
            taken_in_turn::<A, R>(true, trials, from, (n - 1) as nat, before, mid)
                && #[trigger] taken_in_next::<A, R>(true, trials, from, n, mid, after);
        counting_sums_up::<A, R>(trials, from, (n - 1) as nat, before, mid, epochs, steps);
        assert(after.1 == tallied(mid.1, trials[from + n - 1]));
    }
}

/// A run spends the epochs and the steps of its new trials, as far as they can be counted.
pub proof fn law_runs_spend_what_trials_report<
    O: Objective,
    B: Budget,
    A: Sampler<R>,
    P: Pruner<R>,
    R: Reals,
>(
    rig: Rig<P, R>,
    objective: O,
    budget: B,
    began: Instant,
    k: nat,
    start: Bench<A>,
    now: Bench<A>,
    c: Consumption,
)
    requires
        ran(rig, objective, budget, began, k, start, now, c),
        rig.dependable,
    ensures
        c.trials == now.trials.len() - start.trials.len(),
        c.epochs == capped(epochs_in(now.trials, start.trials.len() as int, c.trials as nat)),
        c.steps == capped(steps_in(now.trials, start.trials.len() as int, c.trials as nat)),
    decreases k,
{
    law_run_appends(rig, objective, budget, began, k, start, now, c);
    if k > 0 {
        let mid = choose|mid: (Bench<A>, Consumption)|
            ran(rig, objective, budget, began, (k - 1) as nat, start, mid.0, mid.1)
                && #[trigger] leg(rig, objective, budget, began, mid, (now, c));
        law_runs_spend_what_trials_report(
            rig,
            objective,
            budget,
            began,
            (k - 1) as nat,
            start,
            mid.0,
            mid.1,
        );
        let (n, begun, tally) = choose|n: nat, begun: Bench<A>, tally: Consumption|
            n > 0 && fills(budget, rig.batch, mid.1, n) && #[trigger] asked_in_turn(
                rig,
                n,
                mid.0,
                begun,
            ) && #[trigger] conducted(rig, objective, n, begun, now, mid.1, tally) && c == (
            Consumption { wall_time: c.wall_time, ..with_trials(tally, n) });
        law_batch_appends(rig, objective, n, mid.0, begun, now, mid.1, tally);
        law_asking_appends(rig, n, mid.0, begun);
        let first = start.trials.len() as int;
        let a = mid.1.trials as nat;
        sums_agree(mid.0.trials, now.trials, first, a);
        sums_join(now.trials, first, a, n);
        counting_sums_up::<A, R>(
            now.trials,
            first + a,
            n,
            (begun.sampler, mid.1),
            (now.sampler, tally),
            epochs_in(now.trials, first, a),
            steps_in(now.trials, first, a),
        );
    }
}

/// A run that asks for one trial at a time stops at the first trial with which its epochs are
/// spent: the last trial is not cut short, and no other follows it.
pub proof fn law_epoch_budget_is_met<O: Objective, A: Sampler<R>, P: Pruner<R>, R: Reals>(
    rig: Rig<P, R>,
    objective: O,
    max: u64,
    began: Instant,
    k: nat,
    start: Bench<A>,
    now: Bench<A>,
    c: Consumption,
)
    requires
        ran(rig, objective, (EpochBudget { max_epochs: max }), began, k, start, now, c),
        is_over(rig, (EpochBudget { max_epochs: max }), c),
        rig.dependable,
        rig.batch == 1,
        c.trials < u64::MAX,
    ensures
        epochs_in(now.trials, start.trials.len() as int, c.trials as nat) >= max,
        c.trials > 0 ==> epochs_in(
            now.trials,
            start.trials.len() as int,
            (c.trials - 1) as nat,
        ) < max,
{
    let budget = EpochBudget { max_epochs: max };
    law_runs_spend_what_trials_report(rig, objective, budget, began, k, start, now, c);
    law_run_appends(rig, objective, budget, began, k, start, now, c);
    if k > 0 {
        let mid = choose|mid: (Bench<A>, Consumption)|
            ran(rig, objective, budget, began, (k - 1) as nat, start, mid.0, mid.1)
                && #[trigger] leg(rig, objective, budget, began, mid, (now, c));
        law_runs_spend_what_trials_report(
            rig,
            objective,
            budget,
            began,
            (k - 1) as nat,
            start,
            mid.0,
            mid.1,
        );
        let (n, begun, tally) = choose|n: nat, begun: Bench<A>, tally: Consumption|
            n > 0 && fills(budget, rig.batch, mid.1, n) && #[trigger] asked_in_turn(
                rig,
                n,
                mid.0,
                begun,
            ) && #[trigger] conducted(rig, objective, n, begun, now, mid.1, tally) && c == (
            Consumption { wall_time: c.wall_time, ..with_trials(tally, n) });
        law_batch_appends(rig, objective, n, mid.0, begun, now, mid.1, tally);
        assert(n == 1);
        sums_agree(
            mid.0.trials,
            now.trials,
            start.trials.len() as int,
            mid.1.trials as nat,
        );
    }
}

/// A run on a wall-time budget that is over has read the limit off a clock that was started when
/// the run began, and not before: it asked for its last batch while the clock still said less.
pub proof fn law_wall_time_budget_is_met<O: Objective, A: Sampler<R>, P: Pruner<R>, R: Reals>(
    rig: Rig<P, R>,
    objective: O,
    limit: u128,
    began: Instant,
    k: nat,
    start: Bench<A>,
    now: Bench<A>,
    c: Consumption,
)
    requires
        ran(rig, objective, (WallTimeBudget { limit }), began, k, start, now, c),
        is_over(rig, (WallTimeBudget { limit }), c),
        c.trials <= u64::MAX - rig.batch,
    ensures
        c.wall_time >= limit,
        k == 0 <==> limit == 0,
        k > 0 ==> clock::is_since(began, c.wall_time) && exists|mid: (Bench<A>, Consumption)|
            ran(
                rig,
                objective,
                (WallTimeBudget { limit }),
                began,
                (k - 1) as nat,
                start,
                mid.0,
                mid.1,
            ) && #[trigger] leg(
                rig,
                objective,
                (WallTimeBudget { limit }),
                began,
                mid,
                (now, c),
            ) && mid.1.wall_time < limit,
{
}

/// No two trials of a study share their seed.
pub proof fn law_trials_have_seeds_of_their_own(base_seed: u64, a: u64, b: u64)
    requires
        a != b,
    ensures
        trial_seed(base_seed, a as int) != trial_seed(base_seed, b as int),
{
    if trial_seed(base_seed, a as int) == trial_seed(base_seed, b as int) {
        let (x, y) = (a.wrapping_mul(GOLDEN), b.wrapping_mul(GOLDEN));
        assert(x == y);
        crate::sampler::multiples_tell_apart(a as int, b as int);
    }
}

} // verus!
