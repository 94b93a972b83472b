//! Replay: why running a study again gives the same trials.
//!
//! A run leaves nothing to chance but what its parts leave to chance. Where the sampler, the
//! evaluations and the budget each replay, so does the run: the same trials come in the same
//! order, with the same parameters, seeds, reports and ends. Ids, environments and times are
//! those of the machine, and may differ.

use vstd::prelude::*;
#[allow(unused_imports)]
use std::time::Instant;
#[allow(unused_imports)]
use crate::budget::{Budget, Consumption, TrialBudget};
#[allow(unused_imports)]
use crate::distribution::{Bounds, DistModel};
#[allow(unused_imports)]
use crate::objective::{Objective, Outcome, ReportLog};
#[allow(unused_imports)]
use crate::param::{Assignment, ParamModel};
#[allow(unused_imports)]
use crate::pruner::{AshaPruner, MultiObjectivePruner, NoPruner, Pruner};
#[allow(unused_imports)]
use crate::reals::Reals;
#[allow(unused_imports)]
use crate::rng::TrialRng;
#[allow(unused_imports)]
use crate::run::{Bench, Rig};
#[allow(unused_imports)]
use crate::sampler::{RandomSampler, Sampler};
#[allow(unused_imports)]
use crate::scalar::Scalar;
#[allow(unused_imports)]
use crate::space::SpaceModel;
#[allow(unused_imports)]
use crate::trial::{HistoryModel, ReportModel, TrialModel};
#[allow(unused_imports)]
use crate::distribution;
#[allow(unused_imports)]
use crate::models;
#[allow(unused_imports)]
use crate::reals;
#[allow(unused_imports)]
use crate::run;
#[allow(unused_imports)]
use crate::sampler;
#[allow(unused_imports)]
use crate::storage;
#[allow(unused_imports)]
use crate::trial;

verus! {

/// Whether two trials show the same: they differ in ids, environment and times at most.
pub open spec fn same_face(a: TrialModel, b: TrialModel) -> bool {
    &&& a.params == b.params
    &&& a.seed == b.seed
    &&& a.state == b.state
    &&& a.reports == b.reports
    &&& a.final_metrics == b.final_metrics
}

/// Whether two histories show the same trials in the same order.
pub open spec fn alike(a: HistoryModel, b: HistoryModel) -> bool {
    &&& a.len() == b.len()
    &&& forall|i: int| 0 <= i < a.len() ==> same_face(#[trigger] a[i], b[i])
}

/// Whether two evaluations come to the same: the same metrics, or failure.
pub open spec fn same_outcome(a: Outcome, b: Outcome) -> bool {
    match (a, b) {
        (Ok(x), Ok(y)) => x == y,
        (Err(_), Err(_)) => true,
        _ => false,
    }
}

/// Whether two tallies differ in what the clock said at most.
pub open spec fn same_tally(a: Consumption, b: Consumption) -> bool {
    a == (Consumption { wall_time: a.wall_time, ..b })
}

/// Whether samplers in the same state, as `same` has it, propose the same for histories that show
/// the same, and stay in the same state by what they see.
pub open spec fn sampler_replays<A: Sampler<R>, P, R: Reals>(
    rig: Rig<P, R>,
    same: spec_fn(A, A) -> bool,
) -> bool {
    &&& forall|
        s: A,
        h: HistoryModel,
        p: Assignment,
        a: A,
        t: A,
        g: HistoryModel,
        q: Assignment,
        b: A,
    |
        same(s, t) && alike(h, g) && #[trigger] s.proposes(&rig.reals, rig.space, h, p, a)
            && #[trigger] t.proposes(&rig.reals, rig.space, g, q, b) ==> p == q && same(a, b)
    &&& forall|s: A, x: TrialModel, a: A, t: A, y: TrialModel, b: A|
        same(s, t) && same_face(x, y) && #[trigger] s.observes(x, a) && #[trigger] t.observes(y, b)
            ==> same(a, b)
}

/// Whether evaluations of the same parameters, judged among histories that show the same, make the
/// same reports, are stopped alike and come to the same.
pub open spec fn evaluations_replay<O: Objective, P: Pruner<R>, R: Reals>(
    rig: Rig<P, R>,
    objective: O,
) -> bool {
    forall|
        h: HistoryModel,
        g: HistoryModel,
        at: int,
        l: ReportLog,
        s: bool,
        o: Outcome,
        m: ReportLog,
        t: bool,
        n: Outcome,
    |
        alike(h, g) && 0 <= at < h.len() && #[trigger] evaluates(rig, objective, h, at, l, s, o)
            && #[trigger] evaluates(rig, objective, g, at, m, t, n) ==> l == m && s == t
            && same_outcome(o, n)
}

/// Whether an evaluation of trial `at` may make the reports of `log` and come to `outcome`, asked
/// to stop or not.
pub open spec fn evaluates<O: Objective, P: Pruner<R>, R: Reals>(
    rig: Rig<P, R>,
    objective: O,
    history: HistoryModel,
    at: int,
    log: ReportLog,
    stop: bool,
    outcome: Outcome,
) -> bool {
    &&& objective.allows(history[at].params, log, stop, outcome)
    &&& run::judged(rig.pruner, rig.reals, history, at, log, stop)
}

/// Whether a budget does not look at the clock.
pub open spec fn ignores_the_clock<B: Budget>(budget: B) -> bool {
    forall|a: Consumption, b: Consumption|
        same_tally(a, b) ==> #[trigger] budget.exhausted(a) == #[trigger] budget.exhausted(b)
}

/// Whether two runs stand at the same point.
pub open spec fn in_step<A>(
    same: spec_fn(A, A) -> bool,
    a: (Bench<A>, Consumption),
    b: (Bench<A>, Consumption),
) -> bool {
    &&& alike(a.0.trials, b.0.trials)
    &&& same(a.0.sampler, b.0.sampler)
    &&& same_tally(a.1, b.1)
}

proof fn asking_replays<A: Sampler<R>, P, R: Reals>(
    rig: Rig<P, R>,
    same: spec_fn(A, A) -> bool,
    n: nat,
    a: Bench<A>,
    x: Bench<A>,
    b: Bench<A>,
    y: Bench<A>,
)
    requires
        sampler_replays(rig, same),
        alike(a.trials, b.trials),
        same(a.sampler, b.sampler),
        run::asked_in_turn(rig, n, a, x),
        run::asked_in_turn(rig, n, b, y),
    ensures
        alike(x.trials, y.trials),
        same(x.sampler, y.sampler),
    decreases n,
{
    if n > 0 {
        let m = (n - 1) as nat;
        let p = choose|mid: Bench<A>|
            run::asked_in_turn(rig, m, a, mid) && #[trigger] run::asked(rig, mid, x);
        let q = choose|mid: Bench<A>|
            run::asked_in_turn(rig, m, b, mid) && #[trigger] run::asked(rig, mid, y);
        asking_replays(rig, same, m, a, p, b, q);
        let (s, t) = (x.trials.last(), y.trials.last());
        assert(p.sampler.proposes(&rig.reals, rig.space, p.trials, s.params, x.sampler));
        assert(q.sampler.proposes(&rig.reals, rig.space, q.trials, t.params, y.sampler));
        assert(same_face(s, t));
        assert forall|i: int| 0 <= i < x.trials.len() implies same_face(
            #[trigger] x.trials[i],
            y.trials[i],
        ) by {
            if i < p.trials.len() {
                assert(same_face(p.trials[i], q.trials[i]));
            }
        }
    }
}

proof fn evaluating_replays<O: Objective, P: Pruner<R>, R: Reals>(
    rig: Rig<P, R>,
    objective: O,
    from: int,
    n: nat,
    a: HistoryModel,
    x: HistoryModel,
    b: HistoryModel,
    y: HistoryModel,
)
    requires
        rig.dependable,
        evaluations_replay(rig, objective),
        alike(a, b),
        run::evaluated_in_turn(rig, objective, from, n, a, x),
        run::evaluated_in_turn(rig, objective, from, n, b, y),
    ensures
        alike(x, y),
    decreases n,
{
    if n > 0 {
        let m = (n - 1) as nat;
        let at = from + n - 1;
        let p = choose|mid: HistoryModel|
            run::evaluated_in_turn(rig, objective, from, m, a, mid)
                && #[trigger] run::evaluated_next(rig, objective, from, n, mid, x);
        let q = choose|mid: HistoryModel|
            run::evaluated_in_turn(rig, objective, from, m, b, mid)
                && #[trigger] run::evaluated_next(rig, objective, from, n, mid, y);
        evaluating_replays(rig, objective, from, m, a, p, b, q);
        let (l, o, s) = choose|log: ReportLog, outcome: Outcome, stop: bool| #[trigger]
            run::ends_as(rig, objective, p, at, x[at], log, outcome, stop);
        let (k, e, t) = choose|log: ReportLog, outcome: Outcome, stop: bool| #[trigger]
            run::ends_as(rig, objective, q, at, y[at], log, outcome, stop);
        assert(evaluates(rig, objective, p, at, l, s, o));
        assert(evaluates(rig, objective, q, at, k, t, e));
        assert(same_face(p[at], q[at]));
        assert(l == k && s == t && same_outcome(o, e));
        assert(same_face(x[at], y[at]));
        assert forall|i: int| 0 <= i < x.len() implies same_face(#[trigger] x[i], y[i]) by {
            if i != at {
                assert(x[i] == p[i] && y[i] == q[i]);
            }
        }
    }
}

proof fn counting_replays<A: Sampler<R>, P, R: Reals>(
    rig: Rig<P, R>,
    same: spec_fn(A, A) -> bool,
    h: HistoryModel,
    g: HistoryModel,
    from: int,
    n: nat,
    a: (A, Consumption),
    x: (A, Consumption),
    b: (A, Consumption),
    y: (A, Consumption),
)
    requires
        sampler_replays(rig, same),
        alike(h, g),
        0 <= from,
        from + n <= h.len(),
        same(a.0, b.0),
        same_tally(a.1, b.1),
        run::taken_in_turn::<A, R>(true, h, from, n, a, x),
        run::taken_in_turn::<A, R>(true, g, from, n, b, y),
    ensures
        same(x.0, y.0),
        same_tally(x.1, y.1),
    decreases n,
{
    if n > 0 {
        let m = (n - 1) as nat;
        let at = from + n - 1;
        let p = choose|mid: (A, Consumption)|
            run::taken_in_turn::<A, R>(true, h, from, m, a, mid)
                && #[trigger] run::taken_in_next::<A, R>(true, h, from, n, mid, x);
        let q = choose|mid: (A, Consumption)|
            run::taken_in_turn::<A, R>(true, g, from, m, b, mid)
                && #[trigger] run::taken_in_next::<A, R>(true, g, from, n, mid, y);
        counting_replays(rig, same, h, g, from, m, a, p, b, q);
        assert(same_face(h[at], g[at]));
        assert(p.0.observes(h[at], x.0) && q.0.observes(g[at], y.0));
    }
}

proof fn batches_replay<O: Objective, B: Budget, A: Sampler<R>, P: Pruner<R>, R: Reals>(
    rig: Rig<P, R>,
    objective: O,
    budget: B,
    same: spec_fn(A, A) -> bool,
    began: Instant,
    a: (Bench<A>, Consumption),
    x: (Bench<A>, Consumption),
    other_began: Instant,
    b: (Bench<A>, Consumption),
    y: (Bench<A>, Consumption),
)
    requires
        rig.dependable,
        sampler_replays(rig, same),
        evaluations_replay(rig, objective),
        ignores_the_clock(budget),
        in_step(same, a, b),
        run::leg(rig, objective, budget, began, a, x),
        run::leg(rig, objective, budget, other_began, b, y),
    ensures
        in_step(same, x, y),
{
    let (n, p, c) = choose|n: nat, begun: Bench<A>, tally: Consumption|
        n > 0 && run::fills(budget, rig.batch, a.1, n) && #[trigger] run::asked_in_turn(
            rig,
            n,
            a.0,
            begun,
        ) && #[trigger] run::conducted(rig, objective, n, begun, x.0, a.1, tally) && x.1 == (
        Consumption { wall_time: x.1.wall_time, ..run::with_trials(tally, n) });
    let (m, q, d) = choose|n: nat, begun: Bench<A>, tally: Consumption|
        n > 0 && run::fills(budget, rig.batch, b.1, n) && #[trigger] run::asked_in_turn(
            rig,
            n,
            b.0,
            begun,
        ) && #[trigger] run::conducted(rig, objective, n, begun, y.0, b.1, tally) && y.1 == (
        Consumption { wall_time: y.1.wall_time, ..run::with_trials(tally, n) });
    assert(same_tally(run::with_trials(a.1, n), run::with_trials(b.1, n)));
    assert(same_tally(run::with_trials(a.1, m), run::with_trials(b.1, m)));
    if n < m {
        assert(budget.exhausted(run::with_trials(a.1, n)));
        assert(!budget.exhausted(run::with_trials(b.1, n)));
    } else if m < n {
        assert(budget.exhausted(run::with_trials(b.1, m)));
        assert(!budget.exhausted(run::with_trials(a.1, m)));
    }
    asking_replays(rig, same, n, a.0, p, b.0, q);
    run::law_batch_appends(rig, objective, n, a.0, p, x.0, a.1, c);
    run::law_batch_appends(rig, objective, n, b.0, q, y.0, b.1, d);
    let from = p.trials.len() - n;
    evaluating_replays(rig, objective, from, n, p.trials, x.0.trials, q.trials, y.0.trials);
    run::law_asking_appends(rig, n, a.0, p);
    counting_replays(
        rig,
        same,
        x.0.trials,
        y.0.trials,
        from,
        n,
        (p.sampler, a.1),
        (x.0.sampler, c),
        (q.sampler, b.1),
        (y.0.sampler, d),
    );
}

proof fn prefixes_replay<O: Objective, B: Budget, A: Sampler<R>, P: Pruner<R>, R: Reals>(
    rig: Rig<P, R>,
    objective: O,
    budget: B,
    same: spec_fn(A, A) -> bool,
    k: nat,
    began: Instant,
    start: Bench<A>,
    x: (Bench<A>, Consumption),
    other_began: Instant,
    other: Bench<A>,
    y: (Bench<A>, Consumption),
)
    requires
        rig.dependable,
        sampler_replays(rig, same),
        evaluations_replay(rig, objective),
        ignores_the_clock(budget),
        alike(start.trials, other.trials),
        same(start.sampler, other.sampler),
        run::ran(rig, objective, budget, began, k, start, x.0, x.1),
        run::ran(rig, objective, budget, other_began, k, other, y.0, y.1),
    ensures
        in_step(same, x, y),
    decreases k,
{
    if k > 0 {
        let j = (k - 1) as nat;
        let a = choose|mid: (Bench<A>, Consumption)|
            run::ran(rig, objective, budget, began, j, start, mid.0, mid.1) && #[trigger] run::leg(
                rig,
                objective,
                budget,
                began,
                mid,
                (x.0, x.1),
            );
        let b = choose|mid: (Bench<A>, Consumption)|
            run::ran(rig, objective, budget, other_began, j, other, mid.0, mid.1)
                && #[trigger] run::leg(
                rig,
                objective,
                budget,
                other_began,
                mid,
                (y.0, y.1),
            );
        prefixes_replay(
            rig,
            objective,
            budget,
            same,
            j,
            began,
            start,
            a,
            other_began,
            other,
            b,
        );
        batches_replay(
            rig,
            objective,
            budget,
            same,
            began,
            a,
            (x.0, x.1),
            other_began,
            b,
            (y.0, y.1),
        );
    }
}

/// Where a run stood after fewer batches, and that it was not over by then.
proof fn run_stood<O: Objective, B: Budget, A: Sampler<R>, P: Pruner<R>, R: Reals>(
    rig: Rig<P, R>,
    objective: O,
    budget: B,
    began: Instant,
    j: nat,
    k: nat,
    start: Bench<A>,
    now: Bench<A>,
    c: Consumption,
) -> (mid: (Bench<A>, Consumption))
    requires
        j < k,
        run::ran(rig, objective, budget, began, k, start, now, c),
    ensures
        run::ran(rig, objective, budget, began, j, start, mid.0, mid.1),
        !run::is_over(rig, budget, mid.1),
    decreases k,
{
    let i = (k - 1) as nat;
    let before = choose|mid: (Bench<A>, Consumption)|
        run::ran(rig, objective, budget, began, i, start, mid.0, mid.1) && #[trigger] run::leg(
            rig,
            objective,
            budget,
            began,
            mid,
            (now, c),
        );
    if j == i {
        before
    } else {
        run_stood(rig, objective, budget, began, j, i, start, before.0, before.1)
    }
}

/// A study replays: of two runs that begin alike and run to their end, where the sampler and the
/// evaluations replay and the budget does not look at the clock, each shows the trials of the
/// other, in the same order, and has spent the same.
pub proof fn law_runs_replay<O: Objective, B: Budget, A: Sampler<R>, P: Pruner<R>, R: Reals>(
    rig: Rig<P, R>,
    objective: O,
    budget: B,
    same: spec_fn(A, A) -> bool,
    began: Instant,
    k: nat,
    start: Bench<A>,
    now: Bench<A>,
    spent: Consumption,
    other_began: Instant,
    other_k: nat,
    other_start: Bench<A>,
    other_now: Bench<A>,
    other_spent: Consumption,
)
    requires
        rig.dependable,
        sampler_replays(rig, same),
        evaluations_replay(rig, objective),
        ignores_the_clock(budget),
        alike(start.trials, other_start.trials),
        same(start.sampler, other_start.sampler),
        run::ran(rig, objective, budget, began, k, start, now, spent),
        run::is_over(rig, budget, spent),
        run::ran(rig, objective, budget, other_began, other_k, other_start, other_now, other_spent),
        run::is_over(rig, budget, other_spent),
    ensures
        alike(now.trials, other_now.trials),
        same(now.sampler, other_now.sampler),
        same_tally(spent, other_spent),
{
    let x = (now, spent);
    let y = (other_now, other_spent);
    if k < other_k {
        let mid = run_stood(
            rig,
            objective,
            budget,
            other_began,
            k,
            other_k,
            other_start,
            other_now,
            other_spent,
        );
        prefixes_replay(
            rig,
            objective,
            budget,
            same,
            k,
            began,
            start,
            x,
            other_began,
            other_start,
            mid,
        );
        assert(budget.exhausted(spent) == budget.exhausted(mid.1));
    } else if other_k < k {
        let mid = run_stood(rig, objective, budget, began, other_k, k, start, now, spent);
        prefixes_replay(
            rig,
            objective,
            budget,
            same,
            other_k,
            began,
            start,
            mid,
            other_began,
            other_start,
            y,
        );
        assert(budget.exhausted(mid.1) == budget.exhausted(other_spent));
    } else {
        prefixes_replay(
            rig,
            objective,
            budget,
            same,
            k,
            began,
            start,
            x,
            other_began,
            other_start,
            y,
        );
    }
}

/// Whether an objective makes the same reports and comes to the same whenever it evaluates the
/// same parameters, as long as it is not asked to stop.
pub open spec fn repeats_itself<O: Objective>(objective: O) -> bool {
    forall|p: Assignment, l: ReportLog, o: Outcome, m: ReportLog, n: Outcome|
        #[trigger] objective.allows(p, l, false, o) && #[trigger] objective.allows(p, m, false, n)
            ==> l == m && same_outcome(o, n)
}

proof fn nothing_is_pruned<R: Reals>(
    reals: R,
    history: HistoryModel,
    at: int,
    log: ReportLog,
    stop: bool,
)
    requires
        run::judged(NoPruner, reals, history, at, log, stop),
    ensures
        !stop,
    decreases log.len(),
{
    if log.len() > 0 && stop {
        if run::judged(NoPruner, reals, history, at, log.drop_last(), true) {
            nothing_is_pruned(reals, history, at, log.drop_last(), true);
        }
    }
}

/// Without a pruner, the evaluations of an objective that repeats itself replay.
pub proof fn law_unpruned_evaluations_replay<O: Objective, R: Reals>(
    rig: Rig<NoPruner, R>,
    objective: O,
)
    requires
        repeats_itself(objective),
    ensures
        evaluations_replay(rig, objective),
{
    assert forall|
        h: HistoryModel,
        g: HistoryModel,
        at: int,
        l: ReportLog,
        s: bool,
        o: Outcome,
        m: ReportLog,
        t: bool,
        n: Outcome,
    |
        alike(h, g) && 0 <= at < h.len() && #[trigger] evaluates(rig, objective, h, at, l, s, o)
            && #[trigger] evaluates(rig, objective, g, at, m, t, n) implies l == m && s == t
        && same_outcome(o, n) by {
        assert(same_face(h[at], g[at]));
        assert(rig.pruner == NoPruner);
        nothing_is_pruned(rig.reals, h, at, l, s);
        nothing_is_pruned(rig.reals, g, at, m, t);
    }
}

/// Whether a pruner gives the same verdict on the same reports among histories that show the same.
pub open spec fn pruner_replays<P: Pruner<R>, R: Reals>(rig: Rig<P, R>) -> bool {
    forall|
        reports: Seq<ReportModel>,
        h: HistoryModel,
        a: bool,
        g: HistoryModel,
        b: bool,
    |
        alike(h, g) && #[trigger] rig.pruner.judges(&rig.reals, reports, h, a)
            && #[trigger] rig.pruner.judges(&rig.reals, reports, g, b) ==> a == b
}

proof fn judging_replays<P: Pruner<R>, R: Reals>(
    rig: Rig<P, R>,
    h: HistoryModel,
    g: HistoryModel,
    at: int,
    log: ReportLog,
    s: bool,
    t: bool,
)
    requires
        pruner_replays(rig),
        alike(h, g),
        0 <= at < h.len(),
        run::judged(rig.pruner, rig.reals, h, at, log, s),
        run::judged(rig.pruner, rig.reals, g, at, log, t),
    ensures
        s == t,
    decreases log.len(),
{
    if log.len() > 0 {
        let rest = log.drop_last();
        assert(same_face(h[at], g[at]));
        let (x, y) = (run::with_log(h, at, log), run::with_log(g, at, log));
        assert(alike(x, y)) by {
            assert forall|i: int| 0 <= i < x.len() implies same_face(#[trigger] x[i], y[i]) by {
                assert(same_face(h[i], g[i]));
            }
        }
        assert forall|a: bool, b: bool|
            #[trigger] run::rules(rig.pruner, rig.reals, h, at, log, a) && #[trigger] run::rules(
                rig.pruner,
                rig.reals,
                g,
                at,
                log,
                b,
            ) implies a == b by {
            let reports = storage::filed(h[at].reports, log);
            assert(rig.pruner.judges(&rig.reals, reports, x, a));
            assert(rig.pruner.judges(&rig.reals, reports, y, b));
        }
        if run::judged(rig.pruner, rig.reals, h, at, rest, true) && run::judged(
            rig.pruner,
            rig.reals,
            g,
            at,
            rest,
            false,
        ) {
            judging_replays(rig, h, g, at, rest, true, false);
        }
        if run::judged(rig.pruner, rig.reals, h, at, rest, false) && run::judged(
            rig.pruner,
            rig.reals,
            g,
            at,
            rest,
            true,
        ) {
            judging_replays(rig, h, g, at, rest, false, true);
        }
    }
}

/// Whether an objective makes the same reports and comes to the same whenever it evaluates the
/// same parameters, asked to stop or not.
pub open spec fn always_repeats_itself<O: Objective>(objective: O) -> bool {
    forall|p: Assignment, l: ReportLog, s: bool, o: Outcome, m: ReportLog, t: bool, n: Outcome|
        #[trigger] objective.allows(p, l, s, o) && #[trigger] objective.allows(p, m, t, n)
            ==> l == m && same_outcome(o, n)
}

/// Under a pruner that replays, the evaluations of an objective that always repeats itself replay.
pub proof fn law_pruned_evaluations_replay<O: Objective, P: Pruner<R>, R: Reals>(
    rig: Rig<P, R>,
    objective: O,
)
    requires
        pruner_replays(rig),
        always_repeats_itself(objective),
    ensures
        evaluations_replay(rig, objective),
{
    assert forall|
        h: HistoryModel,
        g: HistoryModel,
        at: int,
        l: ReportLog,
        s: bool,
        o: Outcome,
        m: ReportLog,
        t: bool,
        n: Outcome,
    |
        alike(h, g) && 0 <= at < h.len() && #[trigger] evaluates(rig, objective, h, at, l, s, o)
            && #[trigger] evaluates(rig, objective, g, at, m, t, n) implies l == m && s == t
        && same_outcome(o, n) by {
        assert(same_face(h[at], g[at]));
        judging_replays(rig, h, g, at, l, s, t);
    }
}

/// What is picked from two histories is the same where each trial yields the same.
pub proof fn picks_agree<T>(
    h: HistoryModel,
    g: HistoryModel,
    f: spec_fn(TrialModel) -> Option<T>,
)
    requires
        h.len() == g.len(),
        forall|i: int| 0 <= i < h.len() ==> f(#[trigger] h[i]) == f(g[i]),
    ensures
        models::pick(h, f) == models::pick(g, f),
    decreases h.len(),
{
    if h.len() > 0 {
        let (x, y) = (h.drop_last(), g.drop_last());
        assert forall|i: int| 0 <= i < x.len() implies f(#[trigger] x[i]) == f(y[i]) by {
            assert(f(h[i]) == f(g[i]));
        }
        picks_agree(x, y, f);
        assert(f(h[h.len() - 1]) == f(g[h.len() - 1]));
    }
}

/// Successive halving gives the same verdicts again.
pub proof fn law_successive_halving_replays<R: Reals>(rig: Rig<AshaPruner, R>)
    ensures
        pruner_replays(rig),
{
    assert forall|
        reports: Seq<ReportModel>,
        h: HistoryModel,
        a: bool,
        g: HistoryModel,
        b: bool,
    |
        alike(h, g) && #[trigger] rig.pruner.judges(&rig.reals, reports, h, a)
            && #[trigger] rig.pruner.judges(&rig.reals, reports, g, b) implies a == b by {
        let f = trial::settled_value_at(reports.last().step, rig.pruner@.objective);
        assert forall|i: int| 0 <= i < h.len() implies f(#[trigger] h[i]) == f(g[i]) by {
            assert(same_face(h[i], g[i]));
        }
        picks_agree(h, g, f);
    }
}

/// The multi-objective pruner gives the same verdicts again.
pub proof fn law_dominance_pruning_replays<R: Reals>(rig: Rig<MultiObjectivePruner, R>)
    ensures
        pruner_replays(rig),
{
    assert forall|
        reports: Seq<ReportModel>,
        h: HistoryModel,
        a: bool,
        g: HistoryModel,
        b: bool,
    |
        alike(h, g) && #[trigger] rig.pruner.judges(&rig.reals, reports, h, a)
            && #[trigger] rig.pruner.judges(&rig.reals, reports, g, b) implies a == b by {
        let f = trial::settled_metrics_at(reports.last().step);
        assert forall|i: int| 0 <= i < h.len() implies f(#[trigger] h[i]) == f(g[i]) by {
            assert(same_face(h[i], g[i]));
        }
        picks_agree(h, g, f);
    }
}

proof fn raw_draws_agree<R: Reals>(
    reals: &R,
    bounds: Bounds,
    log: bool,
    rng: TrialRng,
    a: Scalar,
    r: TrialRng,
    b: Scalar,
    s: TrialRng,
)
    requires
        reals::is_steady(reals),
        distribution::is_raw_draw(reals, bounds, log, rng, a, r),
        distribution::is_raw_draw(reals, bounds, log, rng, b, s),
    ensures
        a == b,
        r == s,
{
}

proof fn steps_agree<R: Reals>(
    reals: &R,
    bounds: Bounds,
    step: Option<Scalar>,
    raw: Scalar,
    a: Scalar,
    b: Scalar,
)
    requires
        reals::is_steady(reals),
        distribution::is_step_of(reals, bounds, step, raw, a),
        distribution::is_step_of(reals, bounds, step, raw, b),
    ensures
        a == b,
{
}

/// A draw at a position of the generator is one value, and leaves the generator at one position.
pub proof fn law_draws_replay<R: Reals>(
    reals: &R,
    dist: DistModel,
    rng: TrialRng,
    v: ParamModel,
    r: TrialRng,
    w: ParamModel,
    s: TrialRng,
)
    requires
        reals::is_steady(reals),
        distribution::is_draw(reals, dist, rng, v, r),
        distribution::is_draw(reals, dist, rng, w, s),
    ensures
        v == w,
        r == s,
{
    if let DistModel::Float { bounds, log, step } = dist {
        let (a, x) = choose|a: Scalar, x: Scalar| #[trigger]
            distribution::is_raw_draw(reals, bounds, log, rng, a, r)
                && #[trigger] distribution::is_step_of(reals, bounds, step, a, x) && v
                == ParamModel::Float(bounds.settled(x));
        let (b, y) = choose|b: Scalar, y: Scalar| #[trigger]
            distribution::is_raw_draw(reals, bounds, log, rng, b, s)
                && #[trigger] distribution::is_step_of(reals, bounds, step, b, y) && w
                == ParamModel::Float(bounds.settled(y));
        raw_draws_agree(reals, bounds, log, rng, a, r, b, s);
        steps_agree(reals, bounds, step, a, x, y);
    }
}

proof fn walks_agree<R: Reals>(
    reals: &R,
    defs: SpaceModel,
    n: nat,
    rng: TrialRng,
    a: Assignment,
    r: TrialRng,
    b: Assignment,
    s: TrialRng,
)
    requires
        reals::is_steady(reals),
        sampler::is_walked(reals, defs, n, rng, a, r),
        sampler::is_walked(reals, defs, n, rng, b, s),
    ensures
        a == b,
        r == s,
    decreases n,
{
    if n > 0 {
        let x = choose|x: (Assignment, TrialRng)|
            sampler::is_walked(reals, defs, (n - 1) as nat, rng, x.0, x.1)
                && #[trigger] sampler::draws_next(reals, defs[n - 1], x, (a, r));
        let y = choose|y: (Assignment, TrialRng)|
            sampler::is_walked(reals, defs, (n - 1) as nat, rng, y.0, y.1)
                && #[trigger] sampler::draws_next(reals, defs[n - 1], y, (b, s));
        walks_agree(reals, defs, (n - 1) as nat, rng, x.0, x.1, y.0, y.1);
        let d = defs[n - 1];
        if d.active(x.0) {
            law_draws_replay(reals, d.dist, x.1, a[d.name], r, b[d.name], s);
        }
    }
}

/// Random sampling replays: a suggestion is determined by the seed and the number of trials. Where
/// the space needs floating-point arithmetic, that has to be steady.
pub proof fn law_random_sampling_replays<P, R: Reals>(rig: Rig<P, R>)
    requires
        reals::is_steady(&rig.reals) || sampler::discrete_space(rig.space),
    ensures
        sampler_replays(rig, |a: RandomSampler, b: RandomSampler| a == b),
{
    let same = |a: RandomSampler, b: RandomSampler| a == b;
    assert forall|
        s: RandomSampler,
        h: HistoryModel,
        p: Assignment,
        a: RandomSampler,
        t: RandomSampler,
        g: HistoryModel,
        q: Assignment,
        b: RandomSampler,
    |
        same(s, t) && alike(h, g) && #[trigger] s.proposes(&rig.reals, rig.space, h, p, a)
            && #[trigger] t.proposes(&rig.reals, rig.space, g, q, b) implies p == q && same(
        a,
        b,
    ) by {
        suggestions_agree(&rig.reals, rig.space, s.seed(), h.len() as int, p, q);
    }
}

/// Two suggestions at random from one seed after as many trials are the same.
pub proof fn suggestions_agree<R: Reals>(
    reals: &R,
    defs: SpaceModel,
    seed: u64,
    trials: int,
    p: Assignment,
    q: Assignment,
)
    requires
        reals::is_steady(reals) || sampler::discrete_space(defs),
        sampler::suggests_at_random(reals, defs, seed, trials, p),
        sampler::suggests_at_random(reals, defs, seed, trials, q),
    ensures
        p == q,
{
    if !sampler::discrete_space(defs) {
        let rng = TrialRng { seed: sampler::suggestion_seed(seed, trials), word: 0 };
        let r = choose|r: TrialRng| #[trigger]
            sampler::is_walked(reals, defs, defs.len(), rng, p, r);
        let s = choose|s: TrialRng| #[trigger]
            sampler::is_walked(reals, defs, defs.len(), rng, q, s);
        walks_agree(reals, defs, defs.len(), rng, p, r, q, s);
    }
}

/// A study replays, random as its sampling is: two runs for as many trials, from histories that
/// show the same and the same seed, without a pruner and over an objective that repeats itself,
/// show the same trials. Where the space needs floating-point arithmetic, that has to be steady.
pub proof fn law_random_search_replays<O: Objective, R: Reals>(
    rig: Rig<NoPruner, R>,
    objective: O,
    max: u64,
    sampler: RandomSampler,
    began: Instant,
    k: nat,
    before: HistoryModel,
    now: Bench<RandomSampler>,
    spent: Consumption,
    other_began: Instant,
    other_k: nat,
    other_before: HistoryModel,
    other_now: Bench<RandomSampler>,
    other_spent: Consumption,
)
    requires
        rig.dependable,
        max <= u64::MAX - rig.batch,
        reals::is_steady(&rig.reals) || sampler::discrete_space(rig.space),
        repeats_itself(objective),
        alike(before, other_before),
        run::ran(
            rig,
            objective,
            (TrialBudget { max_trials: max }),
            began,
            k,
            (Bench { trials: before, sampler }),
            now,
            spent,
        ),
        spent.trials == max,
        run::ran(
            rig,
            objective,
            (TrialBudget { max_trials: max }),
            other_began,
            other_k,
            (Bench { trials: other_before, sampler }),
            other_now,
            other_spent,
        ),
        other_spent.trials == max,
    ensures
        alike(now.trials, other_now.trials),
{
    let same = |a: RandomSampler, b: RandomSampler| a == b;
    law_random_sampling_replays(rig);
    law_unpruned_evaluations_replay(rig, objective);
    law_runs_replay(
        rig,
        objective,
        (TrialBudget { max_trials: max }),
        same,
        began,
        k,
        (Bench { trials: before, sampler }),
        now,
        spent,
        other_began,
        other_k,
        (Bench { trials: other_before, sampler }),
        other_now,
        other_spent,
    );
}

} // verus!
