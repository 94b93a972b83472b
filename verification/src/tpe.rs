//! Tree-structured Parzen estimator sampler.
//!
//! Trials are split at a quantile of the objective into good and bad ones; each parameter is
//! then proposed where good values are dense and bad ones are not. Two rules keep conditional
//! spaces honest: a parameter is estimated only from trials in which it was active, and a branch
//! with too few good observations is drawn from its prior instead.

use vstd::prelude::*;
use crate::named::Named;
use crate::axis::{float_axis, float_off_axis, int_axis, int_off_axis, onto_axis};
use crate::distribution::{DistModel, Distribution};
use crate::evolution::{finite_trials, TINIEST};
use crate::metrics::Direction;
use crate::order::ranking;
use crate::param::{Assignment, ParamModel, ParamSet, ParamValue};
use crate::parzen::{candidates, Parzen};
use crate::reals::Reals;
use crate::rng::TrialRng;
use crate::sampler::{suggestion_rng, RandomSampler, Sampler};
use crate::scalar::Scalar;
use crate::space::{DefModel, SearchSpace, SpaceModel};
use crate::trial::{HistoryModel, TrialHistory, TrialModel, TrialRecord};
#[allow(unused_imports)]
use crate::axis;
#[allow(unused_imports)]
use crate::distribution;
#[allow(unused_imports)]
use crate::evolution;
#[allow(unused_imports)]
use crate::models;
#[allow(unused_imports)]
use crate::order;
#[allow(unused_imports)]
use crate::parzen;
#[allow(unused_imports)]
use crate::reals;
#[allow(unused_imports)]
use crate::sampler;
#[allow(unused_imports)]
use crate::space;

verus! {

/// Selects the value of `name` from trials in which it was active.
pub open spec fn observed(name: Seq<char>) -> spec_fn(Assignment) -> Option<ParamModel> {
    |a: Assignment|
        if a.contains_key(name) {
            Some(a[name])
        } else {
            None
        }
}

/// How many trials count as good: the raw share moved into `[1, n - 1]`, at most 25.
pub open spec fn good_count(raw: int, n: int) -> int {
    let c = if raw < 1 {
        1
    } else if raw > n - 1 {
        n - 1
    } else {
        raw
    };
    if c < 25 {
        c
    } else {
        25
    }
}

/// The position of the first of the highest scores; 0 if nothing beats negative infinity.
pub open spec fn highest(scores: Seq<Scalar>) -> int
    decreases scores.len(),
{
    if scores.len() <= 1 {
        0
    } else {
        let best = highest(scores.drop_last());
        let last = scores.len() - 1;
        if beats_so_far(scores, best, last) {
            last
        } else {
            best
        }
    }
}

/// Whether score `i` is strictly above the best score so far, which starts at negative infinity.
pub open spec fn beats_so_far(scores: Seq<Scalar>, best: int, i: int) -> bool {
    if scores[best].nan() || scores[best].key() == -(crate::scalar::INFINITE as int) {
        !scores[i].nan() && scores[i].key() > -(crate::scalar::INFINITE as int)
    } else {
        scores[best].less(scores[i])
    }
}

/// With numbers only, the chosen score is the highest, and everything before it is lower.
pub proof fn law_highest_is_first_maximum(scores: Seq<Scalar>, i: int)
    requires
        0 <= i < scores.len(),
        order::all_numbers(scores),
    ensures
        0 <= highest(scores) < scores.len(),
        scores[i].key() <= scores[highest(scores)].key(),
        i < highest(scores) ==> scores[i].key() < scores[highest(scores)].key(),
    decreases scores.len(),
{
    if scores.len() > 1 {
        let rest = scores.drop_last();
        let last = scores.len() - 1;
        assert forall|k: int| 0 <= k < rest.len() implies !(#[trigger] rest[k]).nan() by {
            assert(rest[k] == scores[k]);
        }
        let k = if i < last {
            i
        } else {
            0
        };
        law_highest_is_first_maximum(rest, k);
        law_highest_is_first_maximum(rest, highest(rest));
        let best = highest(rest);
        assert(rest[best] == scores[best]);
        assert(rest[k] == scores[k]);
        assert(!scores[best].nan() && !scores[last].nan());
    }
}

/// The scores of candidates.
pub open spec fn scores_of<T>(found: Seq<(T, Scalar)>) -> Seq<Scalar> {
    Seq::new(found.len(), |i: int| found[i].1)
}

/// The candidate that leads after all of them were compared in order: a later one takes over
/// only with a strictly higher score.
pub open spec fn leader(scores: Seq<Scalar>) -> int
    decreases scores.len(),
{
    if scores.len() <= 1 {
        0
    } else {
        let best = leader(scores.drop_last());
        if scores[best].less(scores.last()) {
            scores.len() - 1
        } else {
            best
        }
    }
}

/// With numbers only, the leader has the highest score, and every candidate before it a lower
/// one.
pub proof fn law_leader_has_the_highest_score(scores: Seq<Scalar>, i: int)
    requires
        0 <= i < scores.len(),
        order::all_numbers(scores),
    ensures
        0 <= leader(scores) < scores.len(),
        scores[i].key() <= scores[leader(scores)].key(),
        i < leader(scores) ==> scores[i].key() < scores[leader(scores)].key(),
    decreases scores.len(),
{
    if scores.len() > 1 {
        let rest = scores.drop_last();
        let last = scores.len() - 1;
        assert forall|k: int| 0 <= k < rest.len() implies !(#[trigger] rest[k]).nan() by {
            assert(rest[k] == scores[k]);
        }
        let k = if i < last {
            i
        } else {
            0
        };
        law_leader_has_the_highest_score(rest, k);
        let best = leader(rest);
        assert(rest[best] == scores[best]);
        assert(rest[k] == scores[k]);
        assert(!scores[best].nan() && !scores[last].nan());
    }
}

/// The position of the leading candidate.
fn lead<T>(found: &Vec<(T, Scalar)>) -> (best: usize)
    requires
        found@.len() > 0,
    ensures
        best < found@.len(),
        best == leader(scores_of(found@)),
{
    let ghost all = scores_of(found@);
    let mut best: usize = 0;
    let mut i: usize = 1;
    while i < found.len()
        invariant
            1 <= i <= found@.len(),
            best < i,
            all == scores_of(found@),
            best == leader(all.take(i as int)),
        decreases found@.len() - i,
    {
        proof {
            assert(all.take(i + 1).drop_last() =~= all.take(i as int));
            assert(all.take(i + 1)[best as int] == all[best as int]);
        }
        if found[best].1.lt(&found[i].1) {
            best = i;
        }
        i += 1;
    }
    proof {
        assert(all.take(i as int) =~= all);
    }
    best
}

/// The leading candidate.
pub fn pick(found: &Vec<(Scalar, Scalar)>) -> (t: Scalar)
    requires
        found@.len() > 0,
    ensures
        t == found@[leader(scores_of(found@))].0,
{
    found[lead(found)].0
}

/// The choice with the highest score; the first one if there is no score for each.
pub fn pick_choice(scores: &Vec<Scalar>, n: usize) -> (best: usize)
    requires
        n > 0,
    ensures
        best < n,
        best == if scores@.len() == n {
            highest(scores@)
        } else {
            0
        },
{
    if scores.len() == n {
        argmax(scores)
    } else {
        0
    }
}

/// The position of the first of the highest scores.
pub fn argmax(scores: &Vec<Scalar>) -> (best: usize)
    requires
        scores@.len() > 0,
    ensures
        best < scores@.len(),
        best == highest(scores@),
{
    let mut best: usize = 0;
    let mut best_score = if scores[0].is_nan() {
        Scalar::neg_infinity()
    } else {
        scores[0]
    };
    let mut i: usize = 1;
    proof {
        assert(scores@.take(1).len() == 1);
    }
    while i < scores.len()
        invariant
            1 <= i <= scores@.len(),
            best < i,
            best == highest(scores@.take(i as int)),
            !best_score.nan(),
            if scores@[best as int].nan() {
                best_score.key() == -(crate::scalar::INFINITE as int)
            } else {
                best_score == scores@[best as int]
            },
        decreases scores@.len() - i,
    {
        proof {
            let head = scores@.take(i + 1);
            assert(head.drop_last() =~= scores@.take(i as int));
            assert(head[best as int] == scores@[best as int]);
            assert(head[i as int] == scores@[i as int]);
        }
        if best_score.lt(&scores[i]) {
            best_score = scores[i];
            best = i;
        }
        i += 1;
    }
    proof {
        assert(scores@.take(i as int) =~= scores@);
    }
    best
}

/// How often `choice` was observed, with a prior count of one.
pub open spec fn laplace(obs: Seq<ParamModel>, choice: ParamModel) -> nat
    decreases obs.len(),
{
    if obs.len() == 0 {
        1
    } else {
        laplace(obs.drop_last(), choice) + if obs.last() == choice {
            1nat
        } else {
            0
        }
    }
}

/// A count never exceeds the number of observations plus its prior.
pub proof fn laplace_is_bounded(obs: Seq<ParamModel>, choice: ParamModel)
    ensures
        1 <= laplace(obs, choice) <= obs.len() + 1,
    decreases obs.len(),
{
    if obs.len() > 0 {
        laplace_is_bounded(obs.drop_last(), choice);
    }
}

/// How often `choice` was observed, with a prior count of one.
fn count_choice(obs: &Vec<ParamValue>, choice: &ParamValue) -> (n: u128)
    requires
        choice@ !is Float,
    ensures
        n == laplace(models::of(obs@), choice@),
{
    let ghost om = models::of(obs@);
    let mut n: u128 = 1;
    let mut i: usize = 0;
    proof {
        assert(om.take(0) =~= Seq::<ParamModel>::empty());
    }
    while i < obs.len()
        invariant
            i <= obs@.len(),
            om == models::of(obs@),
            choice@ !is Float,
            n == laplace(om.take(i as int), choice@),
            n <= i + 1,
        decreases obs@.len() - i,
    {
        proof {
            assert(om.take(i + 1).drop_last() =~= om.take(i as int));
            assert(om.take(i + 1).last() == obs@[i as int]@);
        }
        if obs[i] == *choice {
            n += 1;
        }
        i += 1;
    }
    proof {
        assert(om.take(i as int) =~= om);
    }
    n
}

/// Whether an earlier choice has the same text as choice `i`.
pub open spec fn repeated(choices: Seq<Seq<char>>, i: int) -> bool {
    exists|j: int| 0 <= j < i && #[trigger] choices[j] == choices[i]
}

/// The prior-smoothed count of choice `i`; observations count for the first of equal choices.
pub open spec fn choice_count(obs: Seq<ParamModel>, choices: Seq<Seq<char>>, i: int) -> nat {
    if repeated(choices, i) {
        1
    } else {
        laplace(obs, ParamModel::Categorical(choices[i]))
    }
}

/// The prior-smoothed counts of categorical choices.
pub fn choice_counts(obs: &Vec<ParamValue>, choices: &Vec<String>) -> (counts: Vec<u128>)
    ensures
        counts@.len() == choices@.len(),
        forall|i: int|
            0 <= i < choices@.len() ==> #[trigger] counts@[i] == choice_count(
                models::of(obs@),
                models::of(choices@),
                i,
            ),
{
    let mut counts: Vec<u128> = Vec::new();
    let ghost cm = models::of(choices@);
    let mut i: usize = 0;
    while i < choices.len()
        invariant
            i <= choices@.len(),
            counts@.len() == i,
            cm == models::of(choices@),
            forall|k: int|
                0 <= k < i ==> #[trigger] counts@[k] == choice_count(models::of(obs@), cm, k),
        decreases choices@.len() - i,
    {
        let mut again = false;
        let mut j: usize = 0;
        while j < i
            invariant
                j <= i,
                i < choices@.len(),
                cm == models::of(choices@),
                again == exists|k: int| 0 <= k < j && #[trigger] cm[k] == cm[i as int],
            decreases i - j,
        {
            if choices[j] == choices[i] {
                again = true;
                proof {
                    assert(cm[j as int] == cm[i as int]);
                }
            }
            j += 1;
        }
        let n = if again {
            1
        } else {
            count_choice(obs, &ParamValue::Categorical(choices[i].clone()))
        };
        counts.push(n);
        i += 1;
    }
    counts
}

/// A Parzen-estimator sampler for a single named objective.
#[derive(Debug)]
pub struct TpeSampler {
    seed: u64,
    objective: String,
    direction: Direction,
    n_startup_trials: usize,
    n_candidates: usize,
    gamma: Scalar,
    min_branch_obs: usize,
}

/// What a [`TpeSampler`] stands for in contracts.
pub struct TpeModel {
    /// The base seed.
    pub seed: u64,
    /// The objective.
    pub objective: Seq<char>,
    /// Which way is better.
    pub direction: Direction,
    /// Random trials before modeling begins.
    pub n_startup_trials: usize,
    /// Candidates drawn per parameter.
    pub n_candidates: usize,
    /// The quantile splitting good from bad trials.
    pub gamma: Scalar,
    /// Good observations needed before a branch is modeled.
    pub min_branch_obs: usize,
}

impl View for TpeSampler {
    type V = TpeModel;

    closed spec fn view(&self) -> TpeModel {
        TpeModel {
            seed: self.seed,
            objective: self.objective@,
            direction: self.direction,
            n_startup_trials: self.n_startup_trials,
            n_candidates: self.n_candidates,
            gamma: self.gamma,
            min_branch_obs: self.min_branch_obs,
        }
    }
}

/// The finite completed trials of a history, best first: the share `gamma` of them that counts
/// as good, at least one and at most twenty-five, then the rest, at least one.
pub open spec fn is_split<R: Reals>(
    reals: &R,
    history: HistoryModel,
    objective: Seq<char>,
    d: Direction,
    gamma: Scalar,
    good: Seq<Assignment>,
    bad: Seq<Assignment>,
) -> bool {
    let pool = models::pick(history, evolution::fit_parent(objective));
    let values = pool.map_values(|p: (Assignment, Scalar)| p.1);
    &&& 1 <= good.len() <= 25 && 1 <= bad.len()
    &&& exists|raw: usize| #[trigger]
        reals::is_share(reals, gamma, pool.len() as usize, raw) && good.len() == good_count(
            raw as int,
            pool.len() as int,
        )
    &&& exists|p: Seq<usize>| #[trigger]
        order::is_ranking(values, d, p) && good + bad == Seq::new(
            p.len(),
            |i: int| pool[p[i] as int].0,
        )
}

/// Whether a proposal grows by one parameter from `before` to `after`: an active parameter is
/// drawn at random until enough good trials had it, and else modeled; any other is passed over.
/// Modeling a choice draws nothing from the stream.
pub open spec fn proposes<R: Reals>(
    reals: &R,
    def: DefModel,
    good: Seq<Assignment>,
    bad: Seq<Assignment>,
    n: usize,
    enough: int,
    before: (Assignment, TrialRng),
    after: (Assignment, TrialRng),
) -> bool {
    if def.active(before.0) {
        let v = after.0[def.name];
        &&& after.0 == before.0.insert(def.name, v)
        &&& if models::pick(good, observed(def.name)).len() < enough {
            evolution::is_inherited(reals, def.dist, None, before.1, v, after.1)
        } else {
            is_modeled(
                reals,
                def.dist,
                models::pick(good, observed(def.name)),
                models::pick(bad, observed(def.name)),
                n,
                before.1,
                v,
                after.1,
            )
        }
    } else {
        after == before
    }
}

/// Whether observations stand at `ts` on the axis of an integer or of a float.
pub open spec fn all_stand_at<R: Reals>(
    reals: &R,
    obs: Seq<ParamModel>,
    whole: bool,
    log: bool,
    ts: Seq<Scalar>,
) -> bool {
    &&& ts.len() == obs.len()
    &&& forall|i: int|
        0 <= i < ts.len() ==> if whole {
            int_stands_at(reals, obs[i], log, #[trigger] ts[i])
        } else {
            float_stands_at(reals, obs[i], log, ts[i])
        }
}

/// Whether a mixture models observations on an axis from `lo` to `hi`.
pub open spec fn is_mixture<R: Reals>(
    reals: &R,
    mixture: Parzen,
    obs: Seq<ParamModel>,
    whole: bool,
    log: bool,
    lo: Scalar,
    hi: Scalar,
) -> bool {
    exists|ts: Seq<Scalar>| #[trigger]
        all_stand_at(reals, obs, whole, log, ts) && mixture.models(reals, ts) && mixture.lo == lo
            && mixture.hi == hi
}

/// Whether `t` is the leading of `n` candidates (at least one) drawn at `rng` from the mixture of
/// the good observations and scored against that of the bad ones, with `after` the position
/// behind them.
pub open spec fn is_leading<R: Reals>(
    reals: &R,
    good: Seq<ParamModel>,
    bad: Seq<ParamModel>,
    whole: bool,
    log: bool,
    lo: Scalar,
    hi: Scalar,
    n: usize,
    rng: TrialRng,
    t: Scalar,
    after: TrialRng,
) -> bool {
    exists|l: Parzen, g: Parzen, found: Seq<(Scalar, Scalar)>|
        is_mixture(reals, l, good, whole, log, lo, hi) && is_mixture(
            reals,
            g,
            bad,
            whole,
            log,
            lo,
            hi,
        ) && found.len() == (if n < 1 {
            1
        } else {
            n as nat
        }) && #[trigger] parzen::are_candidates(&l, &g, reals, found, rng, after) && t
            == found[leader(scores_of(found))].0
}

/// Whether `best` is the choice whose frequency among good observations most exceeds that among
/// bad ones, by their smoothed counts.
pub open spec fn is_best_choice<R: Reals>(
    reals: &R,
    good: Seq<u128>,
    bad: Seq<u128>,
    best: int,
) -> bool {
    exists|scores: Seq<Scalar>| #[trigger]
        reals::are_log_ratios(reals, good, bad, scores) && best == if scores.len() == good.len() {
            highest(scores)
        } else {
            0
        }
}

/// The smoothed counts of categorical choices among observations.
pub open spec fn counts_of(obs: Seq<ParamModel>, choices: Seq<Seq<char>>) -> Seq<u128> {
    Seq::new(choices.len(), |i: int| choice_count(obs, choices, i) as u128)
}

/// The smoothed counts of the two booleans among observations.
pub open spec fn bool_counts(obs: Seq<ParamModel>) -> Seq<u128> {
    seq![
        laplace(obs, ParamModel::Bool(false)) as u128,
        laplace(obs, ParamModel::Bool(true)) as u128,
    ]
}

/// Whether `r` is a modeled float.
pub open spec fn is_modeled_float<R: Reals>(
    reals: &R,
    bounds: distribution::Bounds,
    log: bool,
    step: Option<Scalar>,
    good: Seq<ParamModel>,
    bad: Seq<ParamModel>,
    n: usize,
    rng: TrialRng,
    r: Scalar,
    after: TrialRng,
) -> bool {
    exists|lo: Scalar, hi: Scalar, t: Scalar|
        axis::lies_at(reals, bounds.low, log, lo) && axis::lies_at(reals, bounds.high, log, hi)
            && #[trigger] is_leading(
            reals,
            good,
            bad,
            false,
            log,
            lo,
            hi,
            n,
            rng,
            t,
            after,
        ) && axis::is_off_axis(reals, bounds, log, step, t, r)
}

/// Whether `r` is a modeled integer.
pub open spec fn is_modeled_int<R: Reals>(
    reals: &R,
    low: i64,
    high: i64,
    log: bool,
    step: i64,
    good: Seq<ParamModel>,
    bad: Seq<ParamModel>,
    n: usize,
    rng: TrialRng,
    r: i64,
    after: TrialRng,
) -> bool {
    exists|lo: Scalar, hi: Scalar, t: Scalar|
        axis::int_lies_at(reals, low, log, lo) && axis::int_lies_at(reals, high, log, hi)
            && #[trigger] is_leading(
            reals,
            good,
            bad,
            true,
            log,
            lo,
            hi,
            n,
            rng,
            t,
            after,
        ) && axis::is_int_off_axis(reals, low, high, log, step, t, r)
}

/// Whether `v` comes of modeling a parameter at `rng`, with `after` the position behind it: a
/// number is the leading candidate, moved into its bounds; anything else is the best choice.
pub open spec fn is_modeled<R: Reals>(
    reals: &R,
    dist: DistModel,
    good: Seq<ParamModel>,
    bad: Seq<ParamModel>,
    n: usize,
    rng: TrialRng,
    v: ParamModel,
    after: TrialRng,
) -> bool {
    &&& dist.fits(v)
    &&& match dist {
        DistModel::Float { bounds, log, step } => v matches ParamModel::Float(r)
            && is_modeled_float(reals, bounds, log, step, good, bad, n, rng, r, after),
        DistModel::Int { low, high, log, step } => v matches ParamModel::Int(r)
            && is_modeled_int(reals, low, high, log, step, good, bad, n, rng, r, after),
        DistModel::Categorical { choices } => after == rng && exists|best: int| #[trigger]
            is_best_choice(reals, counts_of(good, choices), counts_of(bad, choices), best) && v
                == ParamModel::Categorical(choices[best]),
        DistModel::Bool => after == rng && exists|best: int| #[trigger]
            is_best_choice(reals, bool_counts(good), bool_counts(bad), best) && v
                == ParamModel::Bool(best == 1),
    }
}

/// Whether a proposal grows parameter by parameter, in declaration order, from nothing at `rng`.
pub open spec fn is_proposal<R: Reals>(
    reals: &R,
    space: SpaceModel,
    good: Seq<Assignment>,
    bad: Seq<Assignment>,
    n: usize,
    enough: int,
    rng: TrialRng,
    stages: Seq<(Assignment, TrialRng)>,
) -> bool {
    &&& 1 <= stages.len() <= space.len() + 1
    &&& stages[0] == (Map::<Seq<char>, ParamModel>::empty(), rng)
    &&& forall|i: int|
        0 <= i < stages.len() - 1 ==> proposes(
            reals,
            #[trigger] space[i],
            good,
            bad,
            n,
            enough,
            stages[i],
            stages[i + 1],
        )
}

proof fn proposal_step<R: Reals>(
    reals: &R,
    space: SpaceModel,
    good: Seq<Assignment>,
    bad: Seq<Assignment>,
    n: usize,
    enough: int,
    rng: TrialRng,
    stages: Seq<(Assignment, TrialRng)>,
    next: (Assignment, TrialRng),
)
    requires
        is_proposal(reals, space, good, bad, n, enough, rng, stages),
        stages.len() <= space.len(),
        proposes(
            reals,
            space[stages.len() - 1],
            good,
            bad,
            n,
            enough,
            stages.last(),
            next,
        ),
    ensures
        is_proposal(reals, space, good, bad, n, enough, rng, stages.push(next)),
{
    let more = stages.push(next);
    assert forall|i: int| 0 <= i < more.len() - 1 implies proposes(
        reals,
        #[trigger] space[i],
        good,
        bad,
        n,
        enough,
        more[i],
        more[i + 1],
    ) by {
        if i + 1 < stages.len() {
            assert(more[i] == stages[i] && more[i + 1] == stages[i + 1]);
        }
    }
}

impl TpeModel {
    /// Whether `p` is what the model proposes after a history that splits into good trials and
    /// the rest.
    pub open spec fn proposed<R: Reals>(
        self,
        reals: &R,
        space: SpaceModel,
        history: HistoryModel,
        good: Seq<Assignment>,
        bad: Seq<Assignment>,
        p: Assignment,
    ) -> bool {
        let start = TrialRng {
            seed: sampler::suggestion_seed(self.seed, history.len() as int),
            word: 0,
        };
        exists|stages: Seq<(Assignment, TrialRng)>| #[trigger]
            is_proposal(
                reals,
                space,
                good,
                bad,
                self.n_candidates,
                self.min_branch_obs as int,
                start,
                stages,
            ) && stages.len() == space.len() + 1 && stages.last().0 == p
    }

    /// Whether `p` is what the model proposes after a history.
    pub open spec fn proposal<R: Reals>(
        self,
        reals: &R,
        space: SpaceModel,
        history: HistoryModel,
        p: Assignment,
    ) -> bool {
        exists|good: Seq<Assignment>, bad: Seq<Assignment>| #[trigger]
            is_split(
                reals,
                history,
                self.objective,
                self.direction,
                self.gamma,
                good,
                bad,
            ) && self.proposed(reals, space, history, good, bad, p)
    }
}

/// The usual settings: ten random trials, twenty-four candidates, the best quarter good, and ten
/// good observations to model a branch.
pub open spec fn usual(objective: Seq<char>, direction: Direction, seed: u64) -> TpeModel {
    TpeModel {
        seed,
        objective,
        direction,
        n_startup_trials: 10,
        n_candidates: 24,
        gamma: Scalar { bits: 0x3fd0_0000_0000_0000 },
        min_branch_obs: 10,
    }
}

impl TpeSampler {
    /// A sampler for `objective` optimized in `direction`: ten random trials, twenty-four
    /// candidates, the best quarter good, and ten good observations to model a branch.
    pub fn new(objective: &str, direction: Direction, seed: u64) -> (s: Self)
        ensures
            s@ == usual(objective@, direction, seed),
    {
        TpeSampler {
            seed,
            objective: objective.to_owned(),
            direction,
            n_startup_trials: 10,
            n_candidates: 24,
            gamma: Scalar::from_bits(0x3fd0_0000_0000_0000),
            min_branch_obs: 10,
        }
    }

    /// Number of random trials before modeling begins (default 10).
    pub fn with_startup_trials(self, n: usize) -> (s: Self)
        ensures
            s@ == (TpeModel { n_startup_trials: n, ..self@ }),
    {
        let mut s = self;
        s.n_startup_trials = n;
        s
    }

    /// Number of candidates drawn per parameter (default 24, at least 1).
    pub fn with_candidates(self, n: usize) -> (s: Self)
        ensures
            s@ == (TpeModel {
                n_candidates: if n < 1 {
                    1
                } else {
                    n
                },
                ..self@
            }),
    {
        let mut s = self;
        s.n_candidates = if n < 1 {
            1
        } else {
            n
        };
        s
    }

    /// Quantile splitting good from bad trials (default one quarter), moved into the range from
    /// one to ninety-nine hundredths.
    pub fn with_gamma(self, gamma: Scalar) -> (s: Self)
        ensures
            s@ == (TpeModel {
                gamma: gamma.clamped(
                    Scalar { bits: 0x3f84_7ae1_47ae_147b },
                    Scalar { bits: 0x3fef_ae14_7ae1_47ae },
                ),
                ..self@
            }),
    {
        let mut s = self;
        s.gamma = gamma.clamp(
            &Scalar::from_bits(0x3f84_7ae1_47ae_147b),
            &Scalar::from_bits(0x3fef_ae14_7ae1_47ae),
        );
        s
    }

    /// Minimum good observations before a branch is modeled rather than drawn from its prior
    /// (default 10).
    pub fn with_min_branch_obs(self, n: usize) -> (s: Self)
        ensures
            s@ == (TpeModel { min_branch_obs: n, ..self@ }),
    {
        let mut s = self;
        s.min_branch_obs = n;
        s
    }

    /// Number of trials placed in the good group, from the raw share.
    pub fn n_below(raw: usize, n: usize) -> (r: usize)
        requires
            n >= 2,
        ensures
            r == good_count(raw as int, n as int),
            1 <= r < n,
    {
        let c: usize = if raw < 1 {
            1
        } else if raw > n - 1 {
            n - 1
        } else {
            raw
        };
        if c < 25 {
            c
        } else {
            25
        }
    }

    /// The trials that reported a finite objective, ranked and split: where the good and the
    /// bad ones stand in the history.
    fn split<R: Reals>(&self, history: &TrialHistory, reals: &R) -> (r: (
        Vec<usize>,
        Vec<usize>,
    ))
        requires
            models::pick(history@, evolution::fit_parent(self@.objective)).len() >= 2,
        ensures
            1 <= r.0@.len(),
            1 <= r.1@.len(),
            forall|k: int| 0 <= k < r.0@.len() ==> (#[trigger] r.0@[k]) < history@.len(),
            forall|k: int| 0 <= k < r.1@.len() ==> (#[trigger] r.1@[k]) < history@.len(),
            is_split(
                reals,
                history@,
                self@.objective,
                self@.direction,
                self@.gamma,
                r.0@.map_values(|i: usize| history@[i as int].params),
                r.1@.map_values(|i: usize| history@[i as int].params),
            ),
    {
        let (at, values) = finite_trials(history, self.objective.as_str());
        let ghost pool = models::pick(history@, evolution::fit_parent(self@.objective));
        let ghost vm = pool.map_values(|p: (Assignment, Scalar)| p.1);
        proof {
            assert forall|k: int| 0 <= k < vm.len() implies values@[k] == vm[k] by {
                assert(at@[k] < history@.len());
            }
            assert(values@ =~= vm);
            assert(order::all_numbers(vm)) by {
                assert forall|i: int| 0 <= i < vm.len() implies !(#[trigger] vm[i]).nan() by {
                    let k = models::pick_origin(history@, evolution::fit_parent(self@.objective), i);
                }
            }
        }
        let p = ranking(&values, self.direction);
        let raw = reals.share(self.gamma, p.len());
        let cut = Self::n_below(raw, p.len());
        proof {
            assert(reals::is_share(reals, self@.gamma, pool.len() as usize, raw));
        }
        let mut good: Vec<usize> = Vec::new();
        let mut bad: Vec<usize> = Vec::new();
        let mut i: usize = 0;
        let ghost n = p@.len();
        while i < p.len()
            invariant
                i <= p@.len(),
                cut < p@.len(),
                p@.len() == at@.len(),
                order::is_permutation(p@, at@.len() as int),
                good@.len() == if i < cut {
                    i as int
                } else {
                    cut as int
                },
                bad@.len() == i - good@.len(),
                forall|k: int| 0 <= k < good@.len() ==> #[trigger] good@[k] == at@[p@[k] as int],
                forall|k: int|
                    0 <= k < bad@.len() ==> #[trigger] bad@[k] == at@[p@[cut + k] as int],
            decreases p@.len() - i,
        {
            if i < cut {
                good.push(at[p[i]]);
            } else {
                bad.push(at[p[i]]);
            }
            i += 1;
        }
        proof {
            let gm = good@.map_values(|i: usize| history@[i as int].params);
            let bm = bad@.map_values(|i: usize| history@[i as int].params);
            let want = Seq::new(p@.len(), |i: int| pool[p@[i] as int].0);
            assert forall|k: int| 0 <= k < want.len() implies (gm + bm)[k] == want[k] by {
                assert(p@[k] < at@.len());
            }
            assert(gm + bm =~= want);
            assert(order::is_ranking(vm, self@.direction, p@));
            assert forall|k: int| 0 <= k < good@.len() implies (#[trigger] good@[k])
                < history@.len() by {
                assert(p@[k] < at@.len());
            }
            assert forall|k: int| 0 <= k < bad@.len() implies (#[trigger] bad@[k])
                < history@.len() by {
                assert(p@[cut + k] < at@.len());
            }
        }
        (good, bad)
    }

    /// The observations of a parameter among the given trials: only those in which it was
    /// active.
    fn observations(history: &TrialHistory, at: &Vec<usize>, name: &str) -> (obs: Vec<ParamValue>)
        requires
            forall|k: int| 0 <= k < at@.len() ==> (#[trigger] at@[k]) < history@.len(),
        ensures
            models::of(obs@) == models::pick(
                at@.map_values(|i: usize| history@[i as int].params),
                observed(name@),
            ),
    {
        let records = history.records();
        let ghost all = at@.map_values(|i: usize| history@[i as int].params);
        let ghost f = observed(name@);
        let mut obs: Vec<ParamValue> = Vec::new();
        let mut k: usize = 0;
        proof {
            assert(models::of(obs@) =~= models::pick(all.take(0), f));
        }
        while k < at.len()
            invariant
                k <= at@.len(),
                records@.len() == history@.len(),
                forall|x: int|
                    0 <= x < records@.len() ==> (#[trigger] records@[x])@ == history@[x],
                forall|x: int| 0 <= x < at@.len() ==> (#[trigger] at@[x]) < history@.len(),
                all == at@.map_values(|i: usize| history@[i as int].params),
                f == observed(name@),
                models::of(obs@) == models::pick(all.take(k as int), f),
            decreases at@.len() - k,
        {
            let ghost before = obs@;
            proof {
                models::pick_step(all, k as int, f);
                assert(records@[at@[k as int] as int]@ == history@[at@[k as int] as int]);
            }
            if let Some(v) = records[at[k]].params.get(name) {
                obs.push(v.clone());
                proof {
                    assert(models::of(obs@) =~= models::of(before).push(v@));
                }
            }
            k += 1;
        }
        proof {
            models::pick_whole(all, f);
        }
        obs
    }

    /// Suggest a single parameter value, given the good and bad observations for it. Numeric
    /// parameters take the best-scored candidate, moved into their bounds; the others take the
    /// choice whose frequency among good trials most exceeds that among bad ones.
    pub fn suggest_param<R: Reals>(
        &self,
        dist: &Distribution,
        good: &Vec<ParamValue>,
        bad: &Vec<ParamValue>,
        rng: &mut TrialRng,
        reals: &R,
    ) -> (v: ParamValue)
        requires
            dist@.drawable(),
        ensures
            is_modeled(
                reals,
                dist@,
                models::of(good@),
                models::of(bad@),
                self@.n_candidates,
                *old(rng),
                v@,
                *final(rng),
            ),
    {
        let ghost (gm, bm) = (models::of(good@), models::of(bad@));
        match dist {
            Distribution::Float { bounds, log, step } => {
                let (lo, hi) = float_axis(bounds, *log, reals);
                let ts = floats_on_axis(good, *log, reals);
                let us = floats_on_axis(bad, *log, reals);
                let l = Parzen::new(&ts, lo, hi, reals);
                let g = Parzen::new(&us, lo, hi, reals);
                let found = candidates(&l, &g, self.n_candidates, rng, reals);
                let t = pick(&found);
                proof {
                    assert(all_stand_at(reals, gm, false, *log, ts@));
                    assert(all_stand_at(reals, bm, false, *log, us@));
                    assert(is_mixture(reals, l, gm, false, *log, lo, hi));
                    assert(is_mixture(reals, g, bm, false, *log, lo, hi));
                    assert(parzen::are_candidates(&l, &g, reals, found@, *old(rng), *rng));
                    assert(is_leading(
                        reals,
                        gm,
                        bm,
                        false,
                        *log,
                        lo,
                        hi,
                        self.n_candidates,
                        *old(rng),
                        t,
                        *rng,
                    ));
                }
                let r = float_off_axis(bounds, *log, *step, t, reals);
                proof {
                    assert(is_modeled_float(
                        reals,
                        *bounds,
                        *log,
                        *step,
                        gm,
                        bm,
                        self.n_candidates,
                        *old(rng),
                        r,
                        *rng,
                    ));
                }
                ParamValue::Float(r)
            },
            Distribution::Int { low, high, log, step } => {
                let (lo, hi) = int_axis(*low, *high, *log, reals);
                let ts = ints_on_axis(good, *log, reals);
                let us = ints_on_axis(bad, *log, reals);
                let l = Parzen::new(&ts, lo, hi, reals);
                let g = Parzen::new(&us, lo, hi, reals);
                let found = candidates(&l, &g, self.n_candidates, rng, reals);
                let t = pick(&found);
                proof {
                    assert(all_stand_at(reals, gm, true, *log, ts@));
                    assert(all_stand_at(reals, bm, true, *log, us@));
                    assert(is_mixture(reals, l, gm, true, *log, lo, hi));
                    assert(is_mixture(reals, g, bm, true, *log, lo, hi));
                    assert(parzen::are_candidates(&l, &g, reals, found@, *old(rng), *rng));
                    assert(is_leading(
                        reals,
                        gm,
                        bm,
                        true,
                        *log,
                        lo,
                        hi,
                        self.n_candidates,
                        *old(rng),
                        t,
                        *rng,
                    ));
                }
                let r = int_off_axis(*low, *high, *log, *step, t, reals);
                proof {
                    assert(is_modeled_int(
                        reals,
                        *low,
                        *high,
                        *log,
                        *step,
                        gm,
                        bm,
                        self.n_candidates,
                        *old(rng),
                        r,
                        *rng,
                    ));
                }
                ParamValue::Int(r)
            },
            Distribution::Categorical { choices } => {
                let l = choice_counts(good, choices);
                let g = choice_counts(bad, choices);
                let scores = reals.log_ratios(&l, &g);
                let best = pick_choice(&scores, choices.len());
                proof {
                    let cm = models::of(choices@);
                    assert(cm[best as int] == choices@[best as int]@);
                    assert(l@ =~= counts_of(gm, cm));
                    assert(g@ =~= counts_of(bm, cm));
                    assert(reals::are_log_ratios(reals, l@, g@, scores@));
                    assert(is_best_choice(
                        reals,
                        counts_of(gm, cm),
                        counts_of(bm, cm),
                        best as int,
                    ));
                }
                ParamValue::Categorical(choices[best].clone())
            },
            Distribution::Bool => {
                let mut l: Vec<u128> = Vec::new();
                l.push(count_choice(good, &ParamValue::Bool(false)));
                l.push(count_choice(good, &ParamValue::Bool(true)));
                let mut g: Vec<u128> = Vec::new();
                g.push(count_choice(bad, &ParamValue::Bool(false)));
                g.push(count_choice(bad, &ParamValue::Bool(true)));
                let scores = reals.log_ratios(&l, &g);
                let best = pick_choice(&scores, 2);
                proof {
                    assert(l@ =~= bool_counts(gm));
                    assert(g@ =~= bool_counts(bm));
                    assert(reals::are_log_ratios(reals, l@, g@, scores@));
                    assert(is_best_choice(
                        reals,
                        bool_counts(gm),
                        bool_counts(bm),
                        best as int,
                    ));
                }
                ParamValue::Bool(best == 1)
            },
        }
    }
}

/// Whether an observation of a float stands at `t` on its axis; another type stands at the
/// origin.
pub open spec fn float_stands_at<R: Reals>(
    reals: &R,
    v: ParamModel,
    log: bool,
    t: Scalar,
) -> bool {
    match v {
        ParamModel::Float(x) => axis::lies_at(
            reals,
            if log {
                axis::at_least(x, Scalar { bits: TINIEST })
            } else {
                x
            },
            log,
            t,
        ),
        _ => t.pattern() == 0,
    }
}

/// Where observations of a float lie on its axis; another type lies at the origin.
pub fn floats_on_axis<R: Reals>(obs: &Vec<ParamValue>, log: bool, reals: &R) -> (ts: Vec<
    Scalar,
>)
    ensures
        ts@.len() == obs@.len(),
        forall|i: int|
            0 <= i < obs@.len() ==> float_stands_at(reals, obs@[i]@, log, #[trigger] ts@[i]),
{
    let mut ts: Vec<Scalar> = Vec::new();
    while ts.len() < obs.len()
        invariant
            ts@.len() <= obs@.len(),
            forall|i: int|
                0 <= i < ts@.len() ==> float_stands_at(reals, obs@[i]@, log, #[trigger] ts@[i]),
        decreases obs@.len() - ts@.len(),
    {
        let i = ts.len();
        let t = match obs[i].as_float() {
            Some(x) => onto_axis(x, log, Scalar::from_bits(TINIEST), reals),
            None => Scalar::zero(),
        };
        ts.push(t);
    }
    ts
}

/// Whether an observation of an integer stands at `t` on its axis; another type stands at the
/// origin.
pub open spec fn int_stands_at<R: Reals>(
    reals: &R,
    v: ParamModel,
    log: bool,
    t: Scalar,
) -> bool {
    match v {
        ParamModel::Int(i) => exists|x: Scalar| #[trigger]
            reals::is_of_int(reals, i, x) && float_stands_at(
                reals,
                ParamModel::Float(x),
                log,
                t,
            ),
        _ => t.pattern() == 0,
    }
}

/// Where observations of an integer lie on its axis; another type lies at the origin.
fn ints_on_axis<R: Reals>(obs: &Vec<ParamValue>, log: bool, reals: &R) -> (ts: Vec<Scalar>)
    ensures
        ts@.len() == obs@.len(),
        forall|i: int|
            0 <= i < obs@.len() ==> int_stands_at(reals, obs@[i]@, log, #[trigger] ts@[i]),
{
    let mut ts: Vec<Scalar> = Vec::new();
    while ts.len() < obs.len()
        invariant
            ts@.len() <= obs@.len(),
            forall|i: int|
                0 <= i < ts@.len() ==> int_stands_at(reals, obs@[i]@, log, #[trigger] ts@[i]),
        decreases obs@.len() - ts@.len(),
    {
        let i = ts.len();
        let t = match obs[i].as_int() {
            Some(v) => {
                let x = reals.of_int(v);
                proof {
                    assert(reals::is_of_int(reals, v, x));
                }
                onto_axis(x, log, Scalar::from_bits(TINIEST), reals)
            },
            None => Scalar::zero(),
        };
        ts.push(t);
    }
    ts
}

impl Named for TpeSampler {
    open spec fn label(&self) -> Seq<char> {
        "tpe"@
    }

    fn name(&self) -> (r: &'static str) {
        "tpe"
    }
}

impl<R: Reals> Sampler<R> for TpeSampler {
    open spec fn proposes(
        &self,
        reals: &R,
        space: SpaceModel,
        history: HistoryModel,
        p: Assignment,
        after: Self,
    ) -> bool {
        let seen = models::pick(history, evolution::fit_parent(self@.objective)).len();
        &&& after == *self
        &&& space::space_ordered(space) ==> space::legal(space, p)
        &&& if seen < self@.n_startup_trials || seen < 2 {
            sampler::suggests_at_random(reals, space, self@.seed, history.len() as int, p)
        } else {
            self@.proposal(reals, space, history, p)
        }
    }

    open spec fn observes(&self, trial: TrialModel, after: Self) -> bool {
        after == *self
    }

    fn suggest(
        &mut self,
        space: &SearchSpace,
        history: &TrialHistory,
        reals: &R,
    ) -> (p: ParamSet) {
        let mut rng = suggestion_rng(self.seed, history.len());
        let (at, _values) = finite_trials(history, self.objective.as_str());
        if at.len() < self.n_startup_trials || at.len() < 2 {
            return RandomSampler::sample_space(space, &mut rng, reals);
        }
        let (good, bad) = self.split(history, reals);
        let ghost gm = good@.map_values(|i: usize| history@[i as int].params);
        let ghost bm = bad@.map_values(|i: usize| history@[i as int].params);
        let mut params = ParamSet::new();
        let ghost begun = rng;
        let ghost enough = self.min_branch_obs as int;
        let ghost mut stages: Seq<(Assignment, TrialRng)> = seq![(params@, rng)];
        proof {
            assert(params@ =~= Map::empty());
        }
        let defs = space.params();
        let mut i: usize = 0;
        while i < defs.len()
            invariant
                i <= space@.len(),
                defs@.len() == space@.len(),
                forall|k: int| 0 <= k < defs@.len() ==> (#[trigger] defs@[k])@ == space@[k],
                space::drawable_space(space@),
                forall|k: int| 0 <= k < good@.len() ==> (#[trigger] good@[k]) < history@.len(),
                forall|k: int| 0 <= k < bad@.len() ==> (#[trigger] bad@[k]) < history@.len(),
                space::space_ordered(space@) ==> sampler::legal_prefix(space@, i as int, params@),
                gm == good@.map_values(|i: usize| history@[i as int].params),
                bm == bad@.map_values(|i: usize| history@[i as int].params),
                enough == self.min_branch_obs,
                stages.len() == i + 1,
                stages.last() == (params@, rng),
                is_proposal(
                    reals,
                    space@,
                    gm,
                    bm,
                    self.n_candidates,
                    enough,
                    begun,
                    stages,
                ),
            decreases defs@.len() - i,
        {
            let def = &defs[i];
            proof {
                assert(def@ == space@[i as int]);
            }
            if SearchSpace::is_active(def, &params) {
                let good_vals = Self::observations(history, &good, def.name.as_str());
                let bad_vals = Self::observations(history, &bad, def.name.as_str());
                let value = if good_vals.len() < self.min_branch_obs {
                    def.distribution.sample(&mut rng, reals)
                } else {
                    self.suggest_param(
                        &def.distribution,
                        &good_vals,
                        &bad_vals,
                        &mut rng,
                        reals,
                    )
                };
                proof {
                    if space::space_ordered(space@) {
                        sampler::legal_insert(space@, i as int, params@, value@);
                    }
                    let next = (params@.insert(def@.name, value@), rng);
                    proposal_step(
                        reals,
                        space@,
                        gm,
                        bm,
                        self.n_candidates,
                        enough,
                        begun,
                        stages,
                        next,
                    );
                    stages = stages.push(next);
                }
                params.insert(def.name.as_str(), value);
            } else {
                proof {
                    if space::space_ordered(space@) {
                        sampler::legal_skip(space@, i as int, params@);
                    }
                    let next = (params@, rng);
                    proposal_step(
                        reals,
                        space@,
                        gm,
                        bm,
                        self.n_candidates,
                        enough,
                        begun,
                        stages,
                        next,
                    );
                    stages = stages.push(next);
                }
            }
            i += 1;
        }
        proof {
            assert(is_proposal(
                reals,
                space@,
                gm,
                bm,
                old(self)@.n_candidates,
                old(self)@.min_branch_obs as int,
                begun,
                stages,
            ));
            assert(old(self)@.proposed(reals, space@, history@, gm, bm, params@));
            assert(is_split(
                reals,
                history@,
                old(self)@.objective,
                old(self)@.direction,
                old(self)@.gamma,
                gm,
                bm,
            ));
        }
        params
    }

    fn on_trial_complete(&mut self, trial: &TrialRecord) {
    }
}

} // verus!
