//! Evolutionary sampler: a genetic algorithm over the search space.
//!
//! Parents are selected from the best completed trials by tournament, combined with uniform
//! crossover, and the child is perturbed with Gaussian mutation. Children are built in
//! declaration order, so a parameter is only assigned when its branch is active.

use vstd::prelude::*;
use crate::named::Named;
use crate::axis::{float_axis, float_off_axis, int_axis, int_off_axis, onto_axis};
use crate::distribution::{DistModel, Distribution};
use crate::metrics::Direction;
use crate::param::{Assignment, ParamModel, ParamSet, ParamValue};
use crate::reals::Reals;
use crate::rng::TrialRng;
use crate::sampler::{suggestion_rng, RandomSampler, Sampler};
use crate::scalar::{Scalar, ONE};
use crate::space::{DefModel, SearchSpace, SpaceModel};
use crate::trial::{HistoryModel, TrialHistory, TrialModel, TrialRecord, TrialState};
#[allow(unused_imports)]
use crate::axis;
#[allow(unused_imports)]
use crate::distribution;
#[allow(unused_imports)]
use crate::models;
#[allow(unused_imports)]
use crate::reals;
#[allow(unused_imports)]
use crate::sampler;
#[allow(unused_imports)]
use crate::space;

verus! {

/// The least float that a logarithm is taken of: the bits of `1e-300`.
pub const TINIEST: u64 = 0x01a5_6e1f_c2f8_f359;

/// The last integer at whole steps of `step` from `low` that does not lie above `high`.
pub open spec fn last_whole_step(low: int, high: int, step: int) -> int {
    low + (high - low) / step * step
}

/// The integer `k` steps above `low`, moved to the first or the last step of `[low, high]` if it
/// lies outside.
pub open spec fn snapped(low: int, high: int, step: int, k: int) -> int {
    let v = low + k * step;
    if v < low {
        low
    } else if v > last_whole_step(low, high, step) {
        last_whole_step(low, high, step)
    } else {
        v
    }
}

/// What is moved to a step lies in the range, a whole number of steps from its lower end.
pub proof fn law_snapping_stays_on_the_steps(low: int, high: int, step: int, k: int)
    requires
        low <= high,
        step >= 1,
    ensures
        low <= last_whole_step(low, high, step) <= high,
        low <= snapped(low, high, step, k) <= high,
        (snapped(low, high, step, k) - low) % step == 0,
{
    let n = (high - low) / step;
    assert(0 <= n * step <= high - low) by (nonlinear_arith)
        requires
            n == (high - low) / step,
            low <= high,
            step >= 1,
    ;
    vstd::arithmetic::div_mod::lemma_mod_multiples_basic(n, step);
    vstd::arithmetic::div_mod::lemma_mod_multiples_basic(k, step);
    vstd::arithmetic::div_mod::lemma_mod_multiples_basic(0, step);
}

/// The integer `k` steps above `low`, moved to the first or the last step of `[low, high]` if it
/// lies outside.
pub fn snap_int(low: i64, high: i64, step: i64, k: i64) -> (v: i64)
    requires
        low <= high,
        step >= 1,
    ensures
        v == snapped(low as int, high as int, step as int, k as int),
        low <= v <= high,
{
    proof {
        let (a, b) = (k as int, step as int);
        assert(-0x4000_0000_0000_0000_0000_0000_0000_0000 <= a * b
            <= 0x4000_0000_0000_0000_0000_0000_0000_0000) by (nonlinear_arith)
            requires
                -0x8000_0000_0000_0000 <= a <= 0x8000_0000_0000_0000,
                -0x8000_0000_0000_0000 <= b <= 0x8000_0000_0000_0000,
        ;
    }
    let (from, to, by) = (low as i128, high as i128, step as i128);
    let v: i128 = from + (k as i128) * by;
    let steps: i128 = (to - from) / by;
    proof {
        let (n, d) = (to - from, by as int);
        assert(0 <= (n / d) * d <= n) by (nonlinear_arith)
            requires
                0 <= n,
                d >= 1,
        ;
    }
    let top: i128 = from + steps * by;
    if v < from {
        low
    } else if v > top {
        top as i64
    } else {
        v as i64
    }
}

/// Whether `r` is a float nudged at `rng` on its axis, with `after` the position behind it.
pub open spec fn is_float_nudge<R: Reals>(
    reals: &R,
    bounds: distribution::Bounds,
    log: bool,
    step: Option<Scalar>,
    x: Scalar,
    scale: Scalar,
    rng: TrialRng,
    r: Scalar,
    after: TrialRng,
) -> bool {
    exists|lo: Scalar, hi: Scalar, at: Scalar, nudged: Scalar|
        axis::lies_at(reals, bounds.low, log, lo) && axis::lies_at(reals, bounds.high, log, hi)
            && axis::lies_at(
            reals,
            if log {
                axis::at_least(x, Scalar { bits: TINIEST })
            } else {
                x
            },
            log,
            at,
        ) && #[trigger] reals::is_nudge(reals, at, scale, lo, hi, rng, nudged, after)
            && axis::is_off_axis(reals, bounds, log, step, nudged.clamped(lo, hi), r)
}

/// Whether `r` is an integer nudged at `rng` on its axis, with `after` the position behind it.
pub open spec fn is_int_nudge<R: Reals>(
    reals: &R,
    low: i64,
    high: i64,
    log: bool,
    step: i64,
    x: i64,
    scale: Scalar,
    rng: TrialRng,
    r: i64,
    after: TrialRng,
) -> bool {
    exists|lo: Scalar, hi: Scalar, plain: Scalar, at: Scalar, nudged: Scalar|
        axis::int_lies_at(reals, low, log, lo) && axis::int_lies_at(reals, high, log, hi)
            && #[trigger] reals::is_of_int(reals, x, plain) && axis::lies_at(
            reals,
            if log {
                axis::at_least(plain, Scalar { bits: ONE })
            } else {
                plain
            },
            log,
            at,
        ) && #[trigger] reals::is_nudge(reals, at, scale, lo, hi, rng, nudged, after)
            && axis::is_int_off_axis(reals, low, high, log, step, nudged.clamped(lo, hi), r)
}

/// Whether `v` is what a mutation makes of `value` at `rng`, and `after` the position behind it:
/// a number is nudged within its range; anything else is drawn anew.
pub open spec fn is_mutant<R: Reals>(
    reals: &R,
    dist: DistModel,
    value: ParamModel,
    scale: Scalar,
    rng: TrialRng,
    v: ParamModel,
    after: TrialRng,
) -> bool {
    &&& dist.fits(v)
    &&& match (dist, value) {
        (DistModel::Float { bounds, log, step }, ParamModel::Float(x)) => v matches
            ParamModel::Float(r) && !r.nan() && bounds.low.key() <= r.key() <= bounds.high.key()
            && is_float_nudge(reals, bounds, log, step, x, scale, rng, r, after),
        (DistModel::Int { low, high, log, step }, ParamModel::Int(x)) => v matches ParamModel::Int(
            r,
        ) && low <= r <= high && is_int_nudge(
            reals,
            low,
            high,
            log,
            step,
            x,
            scale,
            rng,
            r,
            after,
        ),
        _ => distribution::is_draw(reals, dist, rng, v, after),
    }
}

/// Perturb a value within its distribution. Numeric parameters get a Gaussian step (in log
/// space when log-scaled, snapped to any step grid) and stay inside their bounds; categorical
/// and boolean parameters, and values of another type, are drawn anew.
pub fn mutate<R: Reals>(
    dist: &Distribution,
    value: &ParamValue,
    scale: Scalar,
    rng: &mut TrialRng,
    reals: &R,
) -> (v: ParamValue)
    requires
        dist@.drawable(),
    ensures
        is_mutant(reals, dist@, value@, scale, *old(rng), v@, *final(rng)),
{
    match (dist, value) {
        (Distribution::Float { bounds, log, step }, ParamValue::Float(x)) => {
            let (lo, hi) = float_axis(bounds, *log, reals);
            let at = onto_axis(*x, *log, Scalar::from_bits(TINIEST), reals);
            let (nudged, after) = reals.nudge(at, scale, lo, hi, *rng);
            *rng = after;
            let moved = nudged.clamp(&lo, &hi);
            let r = float_off_axis(bounds, *log, *step, moved, reals);
            proof {
                assert(reals::is_nudge(reals, at, scale, lo, hi, *old(rng), nudged, after));
                assert(is_float_nudge(
                    reals,
                    *bounds,
                    *log,
                    *step,
                    *x,
                    scale,
                    *old(rng),
                    r,
                    after,
                ));
            }
            ParamValue::Float(r)
        },
        (Distribution::Int { low, high, log, step }, ParamValue::Int(x)) => {
            let (lo, hi) = int_axis(*low, *high, *log, reals);
            let plain = reals.of_int(*x);
            let at = onto_axis(plain, *log, Scalar::from_bits(ONE), reals);
            let (nudged, after) = reals.nudge(at, scale, lo, hi, *rng);
            *rng = after;
            let moved = nudged.clamp(&lo, &hi);
            let r = int_off_axis(*low, *high, *log, *step, moved, reals);
            proof {
                assert(reals::is_of_int(reals, *x, plain));
                assert(reals::is_nudge(reals, at, scale, lo, hi, *old(rng), nudged, after));
                assert(is_int_nudge(
                    reals,
                    *low,
                    *high,
                    *log,
                    *step,
                    *x,
                    scale,
                    *old(rng),
                    r,
                    after,
                ));
            }
            ParamValue::Int(r)
        },
        _ => dist.sample(rng, reals),
    }
}

/// What a child takes for `name` from two parents: the value of the first, or else that of the
/// second.
pub open spec fn heirloom(
    name: Seq<char>,
    first: Assignment,
    second: Assignment,
) -> Option<ParamModel> {
    if first.contains_key(name) {
        Some(first[name])
    } else if second.contains_key(name) {
        Some(second[name])
    } else {
        None
    }
}

/// What a child takes for `name` from two parents.
pub fn inherited<'a>(name: &str, first: &'a ParamSet, second: &'a ParamSet) -> (r: Option<
    &'a ParamValue,
>)
    ensures
        heirloom(name@, first@, second@) == match r {
            Some(v) => Some(v@),
            None => None,
        },
{
    match first.get(name) {
        Some(v) => Some(v),
        None => second.get(name),
    }
}

/// Whether `v` is the value of a child before mutation at `rng`, and `after` the position behind
/// it: what it inherits, or else a fresh draw.
pub open spec fn is_inherited<R: Reals>(
    reals: &R,
    dist: DistModel,
    heirloom: Option<ParamModel>,
    rng: TrialRng,
    v: ParamModel,
    after: TrialRng,
) -> bool {
    match heirloom {
        Some(x) => v == x && after == rng,
        None => dist.fits(v) && distribution::is_draw(reals, dist, rng, v, after),
    }
}

/// Whether `v` is the value of a child at `rng`, and `after` the position behind it: it is
/// mutated when an event of probability `p` comes about, and else stays as it is.
pub open spec fn is_gene<R: Reals>(
    reals: &R,
    dist: DistModel,
    heirloom: Option<ParamModel>,
    p: Scalar,
    scale: Scalar,
    rng: TrialRng,
    v: ParamModel,
    after: TrialRng,
) -> bool {
    exists|raw: ParamModel, mid: TrialRng| #[trigger]
        is_inherited(reals, dist, heirloom, rng, raw, mid) && if mid.strikes(p) {
            is_mutant(reals, dist, raw, scale, mid.past_strike(p), v, after)
        } else {
            v == raw && after == mid.past_strike(p)
        }
}

/// The value of a child before mutation: what it inherits, or else a fresh draw.
pub fn inherit<R: Reals>(
    dist: &Distribution,
    heirloom: Option<&ParamValue>,
    rng: &mut TrialRng,
    reals: &R,
) -> (v: ParamValue)
    requires
        dist@.drawable(),
    ensures
        is_inherited(
            reals,
            dist@,
            match heirloom {
                Some(x) => Some(x@),
                None => None,
            },
            *old(rng),
            v@,
            *final(rng),
        ),
{
    match heirloom {
        Some(x) => x.clone(),
        None => dist.sample(rng, reals),
    }
}

/// The value of a child: what it inherits, or else a fresh draw, and mutated with probability
/// `p` by `scale` times its range.
pub fn gene<R: Reals>(
    dist: &Distribution,
    heirloom: Option<&ParamValue>,
    p: Scalar,
    scale: Scalar,
    rng: &mut TrialRng,
    reals: &R,
) -> (v: ParamValue)
    requires
        dist@.drawable(),
        p.probability(),
    ensures
        is_gene(
            reals,
            dist@,
            match heirloom {
                Some(x) => Some(x@),
                None => None,
            },
            p,
            scale,
            *old(rng),
            v@,
            *final(rng),
        ),
        heirloom is None ==> dist@.fits(v@),
        heirloom matches Some(x) ==> dist@.fits(x@) ==> dist@.fits(v@),
{
    let ghost before = *rng;
    let ghost from = match heirloom {
        Some(x) => Some(x@),
        None => None,
    };
    let value = inherit(dist, heirloom, rng, reals);
    proof {
        assert(is_inherited(reals, dist@, from, before, value@, *rng));
    }
    if rng.chance(p) {
        mutate(dist, &value, scale, rng, reals)
    } else {
        value
    }
}

/// Two parents, as a child sees them.
pub struct Parents {
    /// The one that heads points to.
    pub heads: Assignment,
    /// The one that tails points to.
    pub tails: Assignment,
    /// Whether the other parent helps out when the chosen one lacks a parameter.
    pub share: bool,
}

impl Parents {
    /// What a child takes for `name` when a coin has chosen the parent.
    pub open spec fn pass_on(self, name: Seq<char>, heads: bool) -> Option<ParamModel> {
        let (first, second) = if heads {
            (self.heads, self.tails)
        } else {
            (self.tails, self.heads)
        };
        if self.share {
            heirloom(name, first, second)
        } else {
            heirloom(name, first, Map::empty())
        }
    }
}

/// Whether a child grows by one parameter from `before` to `after`: an active parameter flips a
/// coin for the parent and takes its gene, any other is passed over.
pub open spec fn grows<R: Reals>(
    reals: &R,
    def: DefModel,
    parents: Parents,
    p: Scalar,
    scale: Scalar,
    before: (Assignment, TrialRng),
    after: (Assignment, TrialRng),
) -> bool {
    if def.active(before.0) {
        &&& after.0 == before.0.insert(def.name, after.0[def.name])
        &&& is_gene(
            reals,
            def.dist,
            parents.pass_on(def.name, before.1.flip()),
            p,
            scale,
            before.1.past_flip(),
            after.0[def.name],
            after.1,
        )
    } else {
        after == before
    }
}

/// Whether a child grows parameter by parameter, in declaration order, from nothing at `rng`.
pub open spec fn is_growth<R: Reals>(
    reals: &R,
    space: Seq<DefModel>,
    parents: Parents,
    p: Scalar,
    scale: Scalar,
    rng: TrialRng,
    stages: Seq<(Assignment, TrialRng)>,
) -> bool {
    &&& 1 <= stages.len() <= space.len() + 1
    &&& stages[0] == (Map::<Seq<char>, ParamModel>::empty(), rng)
    &&& forall|i: int|
        0 <= i < stages.len() - 1 ==> grows(
            reals,
            #[trigger] space[i],
            parents,
            p,
            scale,
            stages[i],
            stages[i + 1],
        )
}

/// Whether `child` is a child of two parents at `rng`, and `after` the position behind it.
pub open spec fn is_child<R: Reals>(
    reals: &R,
    space: Seq<DefModel>,
    parents: Parents,
    p: Scalar,
    scale: Scalar,
    rng: TrialRng,
    child: Assignment,
    after: TrialRng,
) -> bool {
    exists|stages: Seq<(Assignment, TrialRng)>| #[trigger]
        is_growth(reals, space, parents, p, scale, rng, stages) && stages.len() == space.len() + 1
            && stages.last() == (child, after)
}

/// Growing by one more parameter.
pub proof fn growth_step<R: Reals>(
    reals: &R,
    space: Seq<DefModel>,
    parents: Parents,
    p: Scalar,
    scale: Scalar,
    rng: TrialRng,
    stages: Seq<(Assignment, TrialRng)>,
    next: (Assignment, TrialRng),
)
    requires
        is_growth(reals, space, parents, p, scale, rng, stages),
        stages.len() <= space.len(),
        grows(reals, space[stages.len() - 1], parents, p, scale, stages.last(), next),
    ensures
        is_growth(reals, space, parents, p, scale, rng, stages.push(next)),
{
    let more = stages.push(next);
    assert forall|i: int| 0 <= i < more.len() - 1 implies grows(
        reals,
        #[trigger] space[i],
        parents,
        p,
        scale,
        more[i],
        more[i + 1],
    ) by {
        if i + 1 < stages.len() {
            assert(more[i] == stages[i] && more[i + 1] == stages[i + 1]);
        }
    }
}

/// A child that is not mutated has of every active parameter the value of a parent: with
/// mutation switched off and parents that know every parameter, nothing new comes up.
pub proof fn law_unmutated_children_inherit<R: Reals>(
    reals: &R,
    space: Seq<DefModel>,
    parents: Parents,
    p: Scalar,
    scale: Scalar,
    rng: TrialRng,
    child: Assignment,
    after: TrialRng,
    name: Seq<char>,
)
    requires
        is_child(reals, space, parents, p, scale, rng, child, after),
        p.key() == 0,
        child.contains_key(name),
        forall|i: int|
            0 <= i < space.len() ==> parents.heads.contains_key((#[trigger] space[i]).name)
                && parents.tails.contains_key(space[i].name),
    ensures
        child[name] == parents.heads[name] || child[name] == parents.tails[name],
{
    let stages = choose|stages: Seq<(Assignment, TrialRng)>| #[trigger]
        is_growth(reals, space, parents, p, scale, rng, stages) && stages.len() == space.len() + 1
            && stages.last() == (child, after);
    unmutated_stages_inherit(reals, space, parents, p, scale, rng, stages, name, space.len() as int);
}

proof fn unmutated_stages_inherit<R: Reals>(
    reals: &R,
    space: Seq<DefModel>,
    parents: Parents,
    p: Scalar,
    scale: Scalar,
    rng: TrialRng,
    stages: Seq<(Assignment, TrialRng)>,
    name: Seq<char>,
    n: int,
)
    requires
        is_growth(reals, space, parents, p, scale, rng, stages),
        stages.len() == space.len() + 1,
        0 <= n <= space.len(),
        p.key() == 0,
        forall|i: int|
            0 <= i < space.len() ==> parents.heads.contains_key((#[trigger] space[i]).name)
                && parents.tails.contains_key(space[i].name),
    ensures
        stages[n].0.contains_key(name) ==> stages[n].0[name] == parents.heads[name]
            || stages[n].0[name] == parents.tails[name],
    decreases n,
{
    if n > 0 {
        unmutated_stages_inherit(reals, space, parents, p, scale, rng, stages, name, n - 1);
        let def = space[n - 1];
        let (before, now) = (stages[n - 1], stages[n]);
        assert(grows(reals, def, parents, p, scale, before, stages[n - 1 + 1]));
        if def.active(before.0) {
            let from = parents.pass_on(def.name, before.1.flip());
            let (raw, mid) = choose|raw: ParamModel, mid: TrialRng| #[trigger]
                is_inherited(reals, def.dist, from, before.1.past_flip(), raw, mid)
                    && if mid.strikes(p) {
                    is_mutant(
                        reals,
                        def.dist,
                        raw,
                        scale,
                        mid.past_strike(p),
                        now.0[def.name],
                        now.1,
                    )
                } else {
                    now.0[def.name] == raw && now.1 == mid.past_strike(p)
                };
            crate::rng::law_certain_events_are_certain(mid, p);
        }
    }
}

/// Selects completed trials with a finite value, with their parameters.
pub open spec fn fit_parent(objective: Seq<char>) -> spec_fn(TrialModel) -> Option<
    (Assignment, Scalar),
> {
    |t: TrialModel|
        if t.state == TrialState::Complete {
            match t.value(objective) {
                Some(v) => if v.finite() {
                    Some((t.params, v))
                } else {
                    None
                },
                None => None,
            }
        } else {
            None
        }
}

/// The values of a pool.
pub open spec fn scores(pool: Seq<(Assignment, Scalar)>) -> Seq<Scalar> {
    pool.map_values(|x: (Assignment, Scalar)| x.1)
}

/// The winner of `n` draws from a pool, best value first, and the position behind the draws.
pub open spec fn tournament(
    d: Direction,
    values: Seq<Scalar>,
    rng: TrialRng,
    n: nat,
) -> (Option<int>, TrialRng)
    decreases n,
{
    if n == 0 {
        (None, rng)
    } else {
        let (best, r) = tournament(d, values, rng, (n - 1) as nat);
        let i = r.pick(values.len() as u64) as int;
        let next = match best {
            None => Some(i),
            Some(b) => if d.better(values[i], values[b]) {
                Some(i)
            } else {
                Some(b)
            },
        };
        (next, r.past_pick(values.len() as u64))
    }
}

/// A genetic-algorithm sampler for a single named objective.
#[derive(Debug)]
pub struct EvolutionarySampler {
    seed: u64,
    objective: String,
    direction: Direction,
    population_size: usize,
    tournament_size: usize,
    mutation_prob: Scalar,
    mutation_scale: Scalar,
}

/// The finite completed trials of a history: where each stands, and its value.
pub fn finite_trials(history: &TrialHistory, objective: &str) -> (r: (Vec<usize>, Vec<Scalar>))
    ensures
        r.0@.len() == models::pick(history@, fit_parent(objective@)).len(),
        r.1@.len() == r.0@.len(),
        forall|k: int|
            0 <= k < r.0@.len() ==> (#[trigger] r.0@[k]) < history@.len() && models::pick(
                history@,
                fit_parent(objective@),
            )[k] == (history@[r.0@[k] as int].params, r.1@[k]),
{
    let records = history.records();
    let ghost hm = history@;
    let ghost f = fit_parent(objective@);
    let mut at: Vec<usize> = Vec::new();
    let mut values: Vec<Scalar> = Vec::new();
    let mut i: usize = 0;
    while i < records.len()
        invariant
            i <= records@.len(),
            records@.len() == hm.len(),
            f == fit_parent(objective@),
            forall|k: int| 0 <= k < records@.len() ==> (#[trigger] records@[k])@ == hm[k],
            at@.len() == models::pick(hm.take(i as int), f).len(),
            values@.len() == at@.len(),
            forall|k: int|
                0 <= k < at@.len() ==> (#[trigger] at@[k]) < i && models::pick(
                    hm.take(i as int),
                    f,
                )[k] == (hm[at@[k] as int].params, values@[k]),
        decreases records@.len() - i,
    {
        proof {
            models::pick_step(hm, i as int, f);
            assert(records@[i as int]@ == hm[i as int]);
        }
        if records[i].state == TrialState::Complete {
            if let Some(v) = records[i].final_value(objective) {
                if v.is_finite() {
                    at.push(i);
                    values.push(v);
                }
            }
        }
        i += 1;
    }
    proof {
        models::pick_whole(hm, f);
    }
    (at, values)
}

impl EvolutionarySampler {
    /// The objective.
    pub closed spec fn aims_at(self) -> Seq<char> {
        self.objective@
    }

    /// The base seed.
    pub closed spec fn seeded(self) -> u64 {
        self.seed
    }

    /// Which way is better.
    pub closed spec fn prefers(self) -> Direction {
        self.direction
    }

    /// The number of startup trials.
    pub closed spec fn population(self) -> int {
        self.population_size as int
    }

    /// The tournament size.
    pub closed spec fn rounds(self) -> int {
        self.tournament_size as int
    }

    /// The per-parameter mutation probability.
    pub closed spec fn mutates(self) -> Scalar {
        self.mutation_prob
    }

    /// The mutation step size.
    pub closed spec fn spreads(self) -> Scalar {
        self.mutation_scale
    }

    /// The parents that a history yields, and the position behind their choice: the winners of
    /// two tournaments among the finite completed trials, one after the other on the stream of
    /// this suggestion.
    pub open spec fn couple(self, history: Seq<TrialModel>) -> (Parents, TrialRng) {
        let pool = models::pick(history, fit_parent(self.aims_at()));
        let start = TrialRng {
            seed: sampler::suggestion_seed(self.seeded(), history.len() as int),
            word: 0,
        };
        let n = self.rounds() as nat;
        let first = tournament(self.prefers(), scores(pool), start, n);
        let second = tournament(self.prefers(), scores(pool), first.1, n);
        (
            Parents { heads: pool[first.0->0].0, tails: pool[second.0->0].0, share: true },
            second.1,
        )
    }

    /// Whether `p` is a child of the parents that a history yields.
    pub open spec fn breeds<R: Reals>(
        self,
        reals: &R,
        space: Seq<DefModel>,
        history: Seq<TrialModel>,
        p: Assignment,
    ) -> bool {
        exists|after: TrialRng| #[trigger]
            is_child(
                reals,
                space,
                self.couple(history).0,
                self.mutates(),
                self.spreads(),
                self.couple(history).1,
                p,
                after,
            )
    }

    #[verifier::type_invariant]
    spec fn sizes_make_sense(self) -> bool {
        self.population_size >= 2 && self.tournament_size >= 1 && self.mutation_prob.probability()
    }

    /// A sampler optimizing `objective` in `direction`, mutating each parameter with
    /// probability one fifth by a tenth of its range.
    pub fn new(objective: &str, direction: Direction, seed: u64) -> (s: Self)
        ensures
            s.aims_at() == objective@,
            s.prefers() == direction,
            s.seeded() == seed,
            s.population() == 20,
            s.rounds() == 3,
            s.mutates().pattern() == 0x3fc9_9999_9999_999a,
            s.spreads().pattern() == 0x3fb9_9999_9999_999a,
    {
        EvolutionarySampler {
            seed,
            objective: objective.to_owned(),
            direction,
            population_size: 20,
            tournament_size: 3,
            mutation_prob: Scalar::from_bits(0x3fc9_9999_9999_999a),
            mutation_scale: Scalar::from_bits(0x3fb9_9999_9999_999a),
        }
    }

    /// Number of random startup trials before evolution begins (default 20, at least 2).
    pub fn with_population_size(self, n: usize) -> (s: Self)
        ensures
            s.population() == if n < 2 {
                2
            } else {
                n as int
            },
            s.aims_at() == self.aims_at(),
            s.prefers() == self.prefers(),
            s.seeded() == self.seeded(),
            s.rounds() == self.rounds(),
            s.mutates() == self.mutates(),
            s.spreads() == self.spreads(),
    {
        proof {
            use_type_invariant(&self);
        }
        EvolutionarySampler {
            population_size: if n < 2 {
                2
            } else {
                n
            },
            ..self
        }
    }

    /// Tournament size for parent selection (default 3, at least 1).
    pub fn with_tournament_size(self, n: usize) -> (s: Self)
        ensures
            s.rounds() == if n < 1 {
                1
            } else {
                n as int
            },
            s.aims_at() == self.aims_at(),
            s.prefers() == self.prefers(),
            s.seeded() == self.seeded(),
            s.population() == self.population(),
            s.mutates() == self.mutates(),
            s.spreads() == self.spreads(),
    {
        proof {
            use_type_invariant(&self);
        }
        EvolutionarySampler {
            tournament_size: if n < 1 {
                1
            } else {
                n
            },
            ..self
        }
    }

    /// Per-parameter mutation probability (default one fifth), moved into `[0, 1]`.
    pub fn with_mutation_prob(self, p: Scalar) -> (s: Self)
        requires
            !p.nan(),
        ensures
            s.mutates() == p.clamped(Scalar { bits: 0 }, Scalar { bits: ONE }),
            s.aims_at() == self.aims_at(),
            s.prefers() == self.prefers(),
            s.seeded() == self.seeded(),
            s.population() == self.population(),
            s.rounds() == self.rounds(),
            s.spreads() == self.spreads(),
    {
        proof {
            use_type_invariant(&self);
        }
        let zero = Scalar::zero();
        let one = Scalar::from_bits(ONE);
        EvolutionarySampler { mutation_prob: p.clamp(&zero, &one), ..self }
    }

    /// Mutation standard deviation as a fraction of each parameter's range (default a tenth, at
    /// least zero).
    pub fn with_mutation_scale(self, scale: Scalar) -> (s: Self)
        ensures
            s.spreads() == scale || (s.spreads().pattern() == 0 && (scale.nan() || scale.key()
                <= 0)),
            !s.spreads().nan() && s.spreads().key() >= 0,
            s.aims_at() == self.aims_at(),
            s.prefers() == self.prefers(),
            s.seeded() == self.seeded(),
            s.population() == self.population(),
            s.rounds() == self.rounds(),
            s.mutates() == self.mutates(),
    {
        proof {
            use_type_invariant(&self);
        }
        EvolutionarySampler {
            mutation_scale: if Scalar::zero().lt(&scale) {
                scale
            } else {
                Scalar::zero()
            },
            ..self
        }
    }

    /// Tournament selection: draw `tournament_size` of the pool, return the best, the earliest
    /// draw among equals.
    pub fn select(&self, values: &Vec<Scalar>, rng: &mut TrialRng) -> (winner: usize)
        requires
            values@.len() > 0,
        ensures
            winner < values@.len(),
            (Some(winner as int), *final(rng)) == tournament(
                self.prefers(),
                values@,
                *old(rng),
                self.rounds() as nat,
            ),
    {
        proof {
            use_type_invariant(self);
        }
        let mut best: Option<usize> = None;
        let mut round: usize = 0;
        while round < self.tournament_size
            invariant
                round <= self.tournament_size,
                values@.len() > 0,
                best matches Some(b) ==> b < values@.len(),
                round > 0 ==> best is Some,
                (match best {
                    Some(b) => Some(b as int),
                    None => None,
                }, *rng) == tournament(self.direction, values@, *old(rng), round as nat),
            decreases self.tournament_size - round,
        {
            let i = rng.below(values.len() as u64) as usize;
            match best {
                None => {
                    best = Some(i);
                },
                Some(b) => {
                    if self.direction.is_better(values[i], values[b]) {
                        best = Some(i);
                    }
                },
            }
            round += 1;
        }
        match best {
            Some(b) => b,
            None => 0,
        }
    }

    /// Build a child of two parents in declaration order: uniform crossover, falling back across
    /// parents and finally to a fresh draw when neither has the parameter, then mutation.
    pub fn cross<R: Reals>(
        &self,
        space: &SearchSpace,
        a: &ParamSet,
        b: &ParamSet,
        rng: &mut TrialRng,
        reals: &R,
    ) -> (child: ParamSet)
        requires
            space::drawable_space(space@),
        ensures
            space::space_ordered(space@) ==> space::exactly_active(space@, child@),
            space::space_ordered(space@) && space::values_fit(space@, a@) && space::values_fit(
                space@,
                b@,
            ) ==> space::legal(space@, child@),
            is_child(
                reals,
                space@,
                (Parents { heads: a@, tails: b@, share: true }),
                self.mutates(),
                self.spreads(),
                *old(rng),
                child@,
                *final(rng),
            ),
    {
        proof {
            use_type_invariant(self);
        }
        let mut child = ParamSet::new();
        let ghost parents = Parents { heads: a@, tails: b@, share: true };
        let ghost mut stages: Seq<(Assignment, TrialRng)> = seq![(child@, *rng)];
        proof {
            assert(child@ =~= Map::empty());
        }
        let defs = space.params();
        let mut i: usize = 0;
        let ghost sound = space::space_ordered(space@);
        let ghost fit = sound && space::values_fit(space@, a@) && space::values_fit(space@, b@);
        while i < defs.len()
            invariant
                i <= space@.len(),
                defs@.len() == space@.len(),
                forall|k: int| 0 <= k < defs@.len() ==> (#[trigger] defs@[k])@ == space@[k],
                space::drawable_space(space@),
                sound == space::space_ordered(space@),
                fit == (sound && space::values_fit(space@, a@) && space::values_fit(space@, b@)),
                sound ==> space::exact_prefix(space@, i as int, child@),
                fit ==> space::fits_prefix(space@, i as int, child@),
                self.mutation_prob.probability(),
                parents == (Parents { heads: a@, tails: b@, share: true }),
                stages.len() == i + 1,
                stages.last() == (child@, *rng),
                is_growth(
                    reals,
                    space@,
                    parents,
                    self.mutation_prob,
                    self.mutation_scale,
                    *old(rng),
                    stages,
                ),
            decreases defs@.len() - i,
        {
            let def = &defs[i];
            proof {
                assert(def@ == space@[i as int]);
            }
            if SearchSpace::is_active(def, &child) {
                let chosen = if rng.coin() {
                    inherited(def.name.as_str(), a, b)
                } else {
                    inherited(def.name.as_str(), b, a)
                };
                let value = gene(
                    &def.distribution,
                    chosen,
                    self.mutation_prob,
                    self.mutation_scale,
                    rng,
                    reals,
                );
                proof {
                    if sound {
                        sampler::legal_insert(space@, i as int, child@, value@);
                    }
                    let next = (child@.insert(def@.name, value@), *rng);
                    growth_step(
                        reals,
                        space@,
                        parents,
                        self.mutation_prob,
                        self.mutation_scale,
                        *old(rng),
                        stages,
                        next,
                    );
                    stages = stages.push(next);
                }
                child.insert(def.name.as_str(), value);
            } else {
                proof {
                    if sound {
                        sampler::legal_skip(space@, i as int, child@);
                    }
                    let next = (child@, *rng);
                    growth_step(
                        reals,
                        space@,
                        parents,
                        self.mutation_prob,
                        self.mutation_scale,
                        *old(rng),
                        stages,
                        next,
                    );
                    stages = stages.push(next);
                }
            }
            i += 1;
        }
        proof {
            assert(is_growth(
                reals,
                space@,
                parents,
                self.mutation_prob,
                self.mutation_scale,
                *old(rng),
                stages,
            ));
        }
        child
    }
}

impl Named for EvolutionarySampler {
    open spec fn label(&self) -> Seq<char> {
        "evolutionary"@
    }

    fn name(&self) -> (r: &'static str) {
        "evolutionary"
    }
}

impl<R: Reals> Sampler<R> for EvolutionarySampler {
    open spec fn proposes(
        &self,
        reals: &R,
        space: SpaceModel,
        history: HistoryModel,
        p: Assignment,
        after: Self,
    ) -> bool {
        let pool = models::pick(history, fit_parent(self.aims_at()));
        &&& after == *self
        &&& space::space_ordered(space) ==> space::exactly_active(space, p)
        &&& space::space_ordered(space) && (forall|i: int|
            0 <= i < history.len() ==> space::values_fit(space, (#[trigger] history[i]).params))
            ==> space::legal(space, p)
        &&& if pool.len() < self.population() {
            sampler::suggests_at_random(reals, space, self.seeded(), history.len() as int, p)
        } else {
            self.breeds(reals, space, history, p)
        }
    }

    open spec fn observes(&self, trial: TrialModel, after: Self) -> bool {
        after == *self
    }

    fn suggest(
        &mut self,
        space: &SearchSpace,
        history: &TrialHistory,
        reals: &R,
    ) -> (p: ParamSet) {
        proof {
            use_type_invariant(&*self);
        }
        let mut rng = suggestion_rng(self.seed, history.len());
        let (at, values) = finite_trials(history, self.objective.as_str());
        if at.len() < self.population_size {
            return RandomSampler::sample_space(space, &mut rng, reals);
        }
        let ghost start = rng;
        let a = self.select(&values, &mut rng);
        let ghost then = rng;
        let b = self.select(&values, &mut rng);
        let ghost last = rng;
        let records = history.records();
        proof {
            assert(at@[a as int] < records@.len());
            assert(at@[b as int] < records@.len());
            assert(records@[at@[a as int] as int]@ == history@[at@[a as int] as int]);
            assert(records@[at@[b as int] as int]@ == history@[at@[b as int] as int]);
        }
        let child = self.cross(
            space,
            &records[at[a]].params,
            &records[at[b]].params,
            &mut rng,
            reals,
        );
        proof {
            let pool = models::pick(history@, fit_parent(self.aims_at()));
            assert forall|k: int| 0 <= k < values@.len() implies values@[k] == scores(pool)[k] by {
                assert(at@[k] < history@.len());
            }
            assert(values@ =~= scores(pool));
            assert(pool[a as int] == (history@[at@[a as int] as int].params, values@[a as int]));
            assert(pool[b as int] == (history@[at@[b as int] as int].params, values@[b as int]));
            let n = self.rounds() as nat;
            assert(tournament(self.prefers(), scores(pool), start, n) == (Some(a as int), then));
            assert(tournament(self.prefers(), scores(pool), then, n) == (Some(b as int), last));
            let parents = Parents {
                heads: pool[a as int].0,
                tails: pool[b as int].0,
                share: true,
            };
            assert(self.couple(history@) == (parents, last));
            assert(is_child(
                reals,
                space@,
                old(self).couple(history@).0,
                old(self).mutates(),
                old(self).spreads(),
                old(self).couple(history@).1,
                child@,
                rng,
            ));
        }
        child
    }

    fn on_trial_complete(&mut self, trial: &TrialRecord) {
    }
}

/// The winner of a tournament is no worse than any draw it won over: with finite values, a
/// tournament of `n` rounds beats or matches the tournament of its first rounds.
pub proof fn law_more_rounds_never_hurt(
    d: Direction,
    values: Seq<Scalar>,
    rng: TrialRng,
    n: nat,
)
    requires
        n > 0,
        tournament(d, values, rng, n).0 is Some,
    ensures
        tournament(d, values, rng, n + 1).0 is Some,
        !d.better(
            values[tournament(d, values, rng, n).0->0],
            values[tournament(d, values, rng, n + 1).0->0],
        ),
{
}

/// A plain float is mutated by a nudge from where it is, on the scale of its whole range: where
/// the nudge leads stays as it is inside the range, and what lies outside becomes the nearer end.
pub proof fn law_plain_floats_are_nudged_from_where_they_are<R: Reals>(
    reals: &R,
    bounds: distribution::Bounds,
    x: Scalar,
    scale: Scalar,
    rng: TrialRng,
    v: ParamModel,
    after: TrialRng,
)
    requires
        is_mutant(
            reals,
            (DistModel::Float { bounds, log: false, step: None }),
            ParamModel::Float(x),
            scale,
            rng,
            v,
            after,
        ),
        bounds.low.finite(),
        bounds.high.finite(),
        bounds.low.key() <= bounds.high.key(),
    ensures
        exists|nudged: Scalar| #[trigger]
            reals::is_nudge(reals, x, scale, bounds.low, bounds.high, rng, nudged, after) && (
            !nudged.nan() ==> (bounds.low.key() <= nudged.key() <= bounds.high.key() ==> v
                == ParamModel::Float(nudged)) && (nudged.key() < bounds.low.key() ==> v
                == ParamModel::Float(bounds.low)) && (bounds.high.key() < nudged.key() ==> v
                == ParamModel::Float(bounds.high))),
{
    let r = v->Float_0;
    let (lo, hi, at, nudged) = choose|lo: Scalar, hi: Scalar, at: Scalar, nudged: Scalar|
        axis::lies_at(reals, bounds.low, false, lo) && axis::lies_at(reals, bounds.high, false, hi)
            && axis::lies_at(reals, x, false, at) && #[trigger] reals::is_nudge(
            reals,
            at,
            scale,
            lo,
            hi,
            rng,
            nudged,
            after,
        ) && axis::is_off_axis(reals, bounds, false, None, nudged.clamped(lo, hi), r);
    if !nudged.nan() {
        axis::law_plain_axes_give_back_what_lies_inside(reals, bounds, nudged.clamped(lo, hi), r);
    }
    assert(reals::is_nudge(reals, x, scale, bounds.low, bounds.high, rng, nudged, after));
}

/// A float on a logarithmic axis is mutated there: the logarithm of the value is nudged on the
/// scale of the logarithms of the bounds, kept between these, and its exponential is the mutant.
pub proof fn law_log_floats_are_nudged_on_their_axis<R: Reals>(
    reals: &R,
    bounds: distribution::Bounds,
    x: Scalar,
    scale: Scalar,
    rng: TrialRng,
    v: ParamModel,
    after: TrialRng,
)
    requires
        is_mutant(
            reals,
            (DistModel::Float { bounds, log: true, step: None }),
            ParamModel::Float(x),
            scale,
            rng,
            v,
            after,
        ),
        bounds.low.finite(),
        bounds.high.finite(),
        bounds.low.key() <= bounds.high.key(),
        !x.nan(),
        x.key() >= 0x01a5_6e1f_c2f8_f359,
    ensures
        exists|lo: Scalar, hi: Scalar, at: Scalar, nudged: Scalar, raw: Scalar|
            reals::is_ln(reals, bounds.low, lo) && reals::is_ln(reals, bounds.high, hi)
                && reals::is_ln(reals, x, at) && #[trigger] reals::is_nudge(
                reals,
                at,
                scale,
                lo,
                hi,
                rng,
                nudged,
                after,
            ) && #[trigger] reals::is_exp(reals, nudged.clamped(lo, hi), raw) && (!raw.nan() ==> (
            bounds.low.key() <= raw.key() <= bounds.high.key() ==> v == ParamModel::Float(raw)) && (
            raw.key() < bounds.low.key() ==> v == ParamModel::Float(bounds.low)) && (
            bounds.high.key() < raw.key() ==> v == ParamModel::Float(bounds.high))),
{
    let r = v->Float_0;
    let floor = axis::at_least(x, Scalar { bits: TINIEST });
    let (lo, hi, at, nudged) = choose|lo: Scalar, hi: Scalar, at: Scalar, nudged: Scalar|
        axis::lies_at(reals, bounds.low, true, lo) && axis::lies_at(reals, bounds.high, true, hi)
            && axis::lies_at(reals, floor, true, at) && #[trigger] reals::is_nudge(
            reals,
            at,
            scale,
            lo,
            hi,
            rng,
            nudged,
            after,
        ) && axis::is_off_axis(reals, bounds, true, None, nudged.clamped(lo, hi), r);
    axis::law_log_axes_give_back_the_exponential(reals, bounds, nudged.clamped(lo, hi), r);
    let raw = choose|raw: Scalar| #[trigger]
        reals::is_exp(reals, nudged.clamped(lo, hi), raw) && (!raw.nan() ==> (bounds.low.key()
            <= raw.key() <= bounds.high.key() ==> r == raw) && (raw.key() < bounds.low.key() ==> r
            == bounds.low) && (bounds.high.key() < raw.key() ==> r == bounds.high));
    assert(floor == x);
    assert(reals::is_nudge(reals, at, scale, lo, hi, rng, nudged, after));
}

/// An integer is mutated by a nudge from where it lies on its axis, on the scale of the whole
/// axis; the mutant is the step of the range that is nearest to where the nudge leads.
pub proof fn law_plain_integers_are_nudged_from_where_they_are<R: Reals>(
    reals: &R,
    low: i64,
    high: i64,
    step: i64,
    x: i64,
    scale: Scalar,
    rng: TrialRng,
    v: ParamModel,
    after: TrialRng,
)
    requires
        is_mutant(
            reals,
            (DistModel::Int { low, high, log: false, step }),
            ParamModel::Int(x),
            scale,
            rng,
            v,
            after,
        ),
        low <= high,
        step >= 1,
    ensures
        exists|lo: Scalar, hi: Scalar, at: Scalar, nudged: Scalar, k: i64|
            reals::is_of_int(reals, low, lo) && reals::is_of_int(reals, high, hi)
                && reals::is_of_int(reals, x, at) && #[trigger] reals::is_nudge(
                reals,
                at,
                scale,
                lo,
                hi,
                rng,
                nudged,
                after,
            ) && #[trigger] reals::is_steps(reals, nudged.clamped(lo, hi), low, step, k) && (low
                <= low + k * step <= high ==> v == ParamModel::Int((low + k * step) as i64)) && (k
                <= 0 ==> v == ParamModel::Int(low)) && (low + k * step > high ==> v->Int_0 + step
                > high),
{
    let r = v->Int_0;
    let (lo, hi, plain, at, nudged) = choose|
        lo: Scalar,
        hi: Scalar,
        plain: Scalar,
        at: Scalar,
        nudged: Scalar,
    |
        axis::int_lies_at(reals, low, false, lo) && axis::int_lies_at(reals, high, false, hi)
            && #[trigger] reals::is_of_int(reals, x, plain) && axis::lies_at(
            reals,
            plain,
            false,
            at,
        ) && #[trigger] reals::is_nudge(reals, at, scale, lo, hi, rng, nudged, after)
            && axis::is_int_off_axis(reals, low, high, false, step, nudged.clamped(lo, hi), r);
    axis::law_int_axes_give_back_the_nearest_step(
        reals,
        low,
        high,
        false,
        step,
        nudged.clamped(lo, hi),
        r,
    );
    assert(reals::is_nudge(reals, at, scale, lo, hi, rng, nudged, after));
}

/// An integer on a logarithmic axis is mutated there: the logarithm of the value is nudged on the
/// scale of the logarithms of the bounds, and the step nearest to its exponential is the mutant.
pub proof fn law_log_integers_are_nudged_on_their_axis<R: Reals>(
    reals: &R,
    low: i64,
    high: i64,
    step: i64,
    x: i64,
    scale: Scalar,
    rng: TrialRng,
    v: ParamModel,
    after: TrialRng,
)
    requires
        is_mutant(
            reals,
            (DistModel::Int { low, high, log: true, step }),
            ParamModel::Int(x),
            scale,
            rng,
            v,
            after,
        ),
        low <= high,
        step >= 1,
    ensures
        exists|
            low_at: Scalar,
            high_at: Scalar,
            plain: Scalar,
            at: Scalar,
            nudged: Scalar,
            raw: Scalar,
            k: i64,
        |
            axis::int_lies_at(reals, low, true, low_at) && axis::int_lies_at(
                reals,
                high,
                true,
                high_at,
            ) && #[trigger] reals::is_of_int(reals, x, plain) && (!plain.nan() && plain.key()
                >= ONE ==> reals::is_ln(reals, plain, at)) && #[trigger] reals::is_nudge(
                reals,
                at,
                scale,
                low_at,
                high_at,
                rng,
                nudged,
                after,
            ) && reals::is_exp(reals, nudged.clamped(low_at, high_at), raw)
                && #[trigger] reals::is_steps(reals, raw, low, step, k) && (low <= low + k * step
                <= high ==> v == ParamModel::Int((low + k * step) as i64)) && (k <= 0 ==> v
                == ParamModel::Int(low)) && (low + k * step > high ==> v->Int_0 + step > high),
{
    let r = v->Int_0;
    let (lo, hi, plain, at, nudged) = choose|
        lo: Scalar,
        hi: Scalar,
        plain: Scalar,
        at: Scalar,
        nudged: Scalar,
    |
        axis::int_lies_at(reals, low, true, lo) && axis::int_lies_at(reals, high, true, hi)
            && #[trigger] reals::is_of_int(reals, x, plain) && axis::lies_at(
            reals,
            axis::at_least(plain, Scalar { bits: ONE }),
            true,
            at,
        ) && #[trigger] reals::is_nudge(reals, at, scale, lo, hi, rng, nudged, after)
            && axis::is_int_off_axis(reals, low, high, true, step, nudged.clamped(lo, hi), r);
    axis::law_int_axes_give_back_the_nearest_step(
        reals,
        low,
        high,
        true,
        step,
        nudged.clamped(lo, hi),
        r,
    );
    assert(reals::is_nudge(reals, at, scale, lo, hi, rng, nudged, after));
}

/// Choices and flags have nothing to be nudged on: their mutants are fresh draws.
pub proof fn law_choices_are_mutated_by_drawing_anew<R: Reals>(
    reals: &R,
    dist: DistModel,
    value: ParamModel,
    scale: Scalar,
    rng: TrialRng,
    v: ParamModel,
    after: TrialRng,
)
    requires
        is_mutant(reals, dist, value, scale, rng, v, after),
        dist is Bool || dist is Categorical,
    ensures
        dist is Bool ==> v == ParamModel::Bool(rng.flip()),
        dist matches DistModel::Categorical { choices } ==> v == ParamModel::Categorical(
            choices[rng.pick(choices.len() as u64) as int],
        ),
{
}

/// A value is mutated where it must be and left alone where it must not be: at probability one a
/// child has a mutant of what it inherits, at probability zero what it inherits.
pub proof fn law_mutation_goes_by_its_probability<R: Reals>(
    reals: &R,
    dist: DistModel,
    raw: ParamModel,
    p: Scalar,
    scale: Scalar,
    rng: TrialRng,
    v: ParamModel,
    after: TrialRng,
)
    requires
        is_gene(reals, dist, Some(raw), p, scale, rng, v, after),
    ensures
        p.key() == 0 ==> v == raw,
        p.key() == ONE ==> exists|then: TrialRng| #[trigger]
            is_mutant(reals, dist, raw, scale, then, v, after),
{
    crate::rng::law_certain_events_are_certain(rng, p);
}

} // verus!
