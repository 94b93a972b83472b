//! Samplers over steady arithmetic: each replays, whatever its arithmetic answers, as long as it
//! answers the same question alike.

use vstd::prelude::*;
#[allow(unused_imports)]
use crate::distribution::{Bounds, DistModel};
#[allow(unused_imports)]
use crate::evolution::{EvolutionarySampler, Parents};
#[allow(unused_imports)]
use crate::metrics::Direction;
#[allow(unused_imports)]
use crate::order::Middle;
#[allow(unused_imports)]
use crate::param::{Assignment, ParamModel};
#[allow(unused_imports)]
use crate::pruner::{MedianPruner, Pruner};
#[allow(unused_imports)]
use crate::qmc::QmcSampler;
#[allow(unused_imports)]
use crate::reals::Reals;
#[allow(unused_imports)]
use crate::rng::TrialRng;
#[allow(unused_imports)]
use crate::run::Rig;
#[allow(unused_imports)]
use crate::sampler::{GridSampler, Sampler};
#[allow(unused_imports)]
use crate::scalar::Scalar;
#[allow(unused_imports)]
use crate::space::{DefModel, SpaceModel};
#[allow(unused_imports)]
use crate::trial::{HistoryModel, ReportModel, TrialModel};
#[allow(unused_imports)]
use crate::warmstart::WarmStartSampler;
#[allow(unused_imports)]
use crate::axis;
#[allow(unused_imports)]
use crate::distribution;
#[allow(unused_imports)]
use crate::evolution;
#[allow(unused_imports)]
use crate::models;
#[allow(unused_imports)]
use crate::order;
#[allow(unused_imports)]
use crate::pruner;
#[allow(unused_imports)]
use crate::qmc;
#[allow(unused_imports)]
use crate::reals;
#[allow(unused_imports)]
use crate::replay;
#[allow(unused_imports)]
use crate::sampler;
#[allow(unused_imports)]
use crate::trial;

verus! {

/// A warm start replays where the sampler behind it does.
pub proof fn law_warm_starts_replay<S: Sampler<R>, P, R: Reals>(
    rig: Rig<P, R>,
    same: spec_fn(S, S) -> bool,
)
    requires
        replay::sampler_replays(rig, same),
    ensures
        replay::sampler_replays(
            rig,
            |a: WarmStartSampler<S>, b: WarmStartSampler<S>|
                a.queue() == b.queue() && same(a.wraps(), b.wraps()),
        ),
{
}

proof fn grid_points_agree<R: Reals>(
    reals: &R,
    bounds: Bounds,
    log: bool,
    i: usize,
    n: usize,
    x: Scalar,
    y: Scalar,
)
    requires
        reals::is_steady(reals),
        distribution::is_grid_point(reals, bounds, log, i, n, x),
        distribution::is_grid_point(reals, bounds, log, i, n, y),
    ensures
        x == y,
{
}

proof fn grids_agree<R: Reals>(
    reals: &R,
    dist: DistModel,
    samples: usize,
    a: Seq<ParamModel>,
    b: Seq<ParamModel>,
)
    requires
        reals::is_steady(reals),
        distribution::is_grid(reals, dist, samples, a),
        distribution::is_grid(reals, dist, samples, b),
    ensures
        a == b,
{
    if let DistModel::Float { bounds, log, step } = dist {
        if step is None && samples > 1 {
            assert forall|i: int| 0 <= i < a.len() implies a[i] == b[i] by {
                let (x, y) = (a[i]->Float_0, b[i]->Float_0);
                grid_points_agree(reals, bounds, log, i as usize, samples, x, y);
            }
            assert(a =~= b);
        }
    }
}

proof fn layouts_agree<R: Reals>(
    reals: &R,
    defs: SpaceModel,
    samples: usize,
    a: Seq<Seq<ParamModel>>,
    b: Seq<Seq<ParamModel>>,
)
    requires
        reals::is_steady(reals),
        sampler::are_grids(reals, defs, samples, a),
        sampler::are_grids(reals, defs, samples, b),
    ensures
        a == b,
{
    assert forall|i: int| 0 <= i < a.len() implies a[i] == b[i] by {
        grids_agree(reals, defs[i].dist, samples, a[i], b[i]);
    }
    assert(a =~= b);
}

/// Grid search replays: two samplers that stand at the same place of the same grid, or at the
/// beginning of one yet to be laid out, hand out the same points.
pub proof fn law_grid_search_replays<P, R: Reals>(rig: Rig<P, R>)
    requires
        reals::is_steady(&rig.reals),
    ensures
        replay::sampler_replays(
            rig,
            |a: GridSampler, b: GridSampler|
                a.samples() == b.samples() && a.ready() == b.ready() && a.points() == b.points()
                    && a.next() == b.next(),
        ),
{
    let same = |a: GridSampler, b: GridSampler|
        a.samples() == b.samples() && a.ready() == b.ready() && a.points() == b.points()
            && a.next() == b.next();
    assert forall|
        s: GridSampler,
        h: HistoryModel,
        p: Assignment,
        a: GridSampler,
        t: GridSampler,
        g: HistoryModel,
        q: Assignment,
        b: GridSampler,
    |
        same(s, t) && replay::alike(h, g) && #[trigger] s.proposes(
            &rig.reals,
            rig.space,
            h,
            p,
            a,
        ) && #[trigger] t.proposes(&rig.reals, rig.space, g, q, b) implies p == q && same(a, b) by {
        if !s.ready() {
            let x = choose|x: Seq<Seq<ParamModel>>| #[trigger]
                sampler::built_from(&rig.reals, rig.space, s.samples(), x, a.points());
            let y = choose|y: Seq<Seq<ParamModel>>| #[trigger]
                sampler::built_from(&rig.reals, rig.space, t.samples(), y, b.points());
            layouts_agree(&rig.reals, rig.space, s.samples(), x, y);
        }
    }
}

proof fn digits_agree(a: Seq<u64>, b: Seq<u64>)
    requires
        a.map_values(|d: u64| d as nat) == b.map_values(|d: u64| d as nat),
    ensures
        a == b,
{
    let (x, y) = (a.map_values(|d: u64| d as nat), b.map_values(|d: u64| d as nat));
    assert(x.len() == a.len());
    assert(y.len() == b.len());
    assert forall|i: int| 0 <= i < a.len() implies a[i] == b[i] by {
        assert(x[i] == a[i] as nat);
        assert(y[i] == b[i] as nat);
    }
    assert(a =~= b);
}

/// The number that lies at a place of the axis of a float range is one.
pub proof fn off_axis_agrees<R: Reals>(
    reals: &R,
    bounds: Bounds,
    log: bool,
    step: Option<Scalar>,
    t: Scalar,
    x: Scalar,
    y: Scalar,
)
    requires
        reals::is_steady(reals),
        axis::is_off_axis(reals, bounds, log, step, t, x),
        axis::is_off_axis(reals, bounds, log, step, t, y),
    ensures
        x == y,
{
}

proof fn int_places_agree<R: Reals>(
    reals: &R,
    low: i64,
    high: i64,
    log: bool,
    u: Scalar,
    x: Scalar,
    y: Scalar,
)
    requires
        reals::is_steady(reals),
        qmc::is_int_at(reals, low, high, log, u, x),
        qmc::is_int_at(reals, low, high, log, u, y),
    ensures
        x == y,
{
}

proof fn units_agree<R: Reals>(reals: &R, index: u64, base: u64, u: Scalar, w: Scalar)
    requires
        reals::is_steady(reals),
        qmc::is_unit(reals, index, base, u),
        qmc::is_unit(reals, index, base, w),
    ensures
        u == w,
{
    let zero = Scalar { bits: 0 };
    let top = Scalar { bits: qmc::BELOW_ONE };
    let (ds, f) = choose|ds: Seq<u64>, f: Scalar|
        ds.map_values(|d: u64| d as nat) == qmc::digits(index as nat, base as nat)
            && #[trigger] reals::is_fraction(reals, ds, base, f) && u == f.clamped(zero, top);
    let (es, g) = choose|es: Seq<u64>, g: Scalar|
        es.map_values(|d: u64| d as nat) == qmc::digits(index as nat, base as nat)
            && #[trigger] reals::is_fraction(reals, es, base, g) && w == g.clamped(zero, top);
    digits_agree(ds, es);
}

proof fn values_at_agree<R: Reals>(
    reals: &R,
    dist: DistModel,
    u: Scalar,
    v: ParamModel,
    w: ParamModel,
)
    requires
        reals::is_steady(reals),
        qmc::is_value_at(reals, dist, u, v),
        qmc::is_value_at(reals, dist, u, w),
    ensures
        v == w,
{
    match dist {
        DistModel::Float { bounds, log, step } => {
            let (lo, hi, t) = choose|lo: Scalar, hi: Scalar, t: Scalar|
                axis::lies_at(reals, bounds.low, log, lo) && axis::lies_at(
                    reals,
                    bounds.high,
                    log,
                    hi,
                ) && #[trigger] reals::is_mix(reals, lo, hi, u, t) && (v matches ParamModel::Float(
                    x,
                ) && axis::is_off_axis(reals, bounds, log, step, t, x));
            off_axis_agrees(reals, bounds, log, step, t, v->Float_0, w->Float_0);
        },
        DistModel::Int { low, high, log, step } => {
            let (x, a, k) = choose|x: Scalar, a: Scalar, k: i64|
                qmc::is_int_at(reals, low, high, log, u, x) && #[trigger] reals::is_floor(
                    reals,
                    x,
                    a,
                ) && #[trigger] reals::is_steps(reals, a, low, step, k) && v == ParamModel::Int(
                    evolution::snapped(
                        low as int,
                        high as int,
                        step as int,
                        if k < 0 {
                            0
                        } else {
                            k as int
                        },
                    ) as i64,
                );
            let (y, b, l) = choose|y: Scalar, b: Scalar, l: i64|
                qmc::is_int_at(reals, low, high, log, u, y) && #[trigger] reals::is_floor(
                    reals,
                    y,
                    b,
                ) && #[trigger] reals::is_steps(reals, b, low, step, l) && w == ParamModel::Int(
                    evolution::snapped(
                        low as int,
                        high as int,
                        step as int,
                        if l < 0 {
                            0
                        } else {
                            l as int
                        },
                    ) as i64,
                );
            int_places_agree(reals, low, high, log, u, x, y);
        },
        _ => {},
    }
}

proof fn values_of_agree<R: Reals>(
    reals: &R,
    dist: DistModel,
    index: u64,
    base: u64,
    v: ParamModel,
    w: ParamModel,
)
    requires
        reals::is_steady(reals),
        qmc::is_value_of(reals, dist, index, base, v),
        qmc::is_value_of(reals, dist, index, base, w),
    ensures
        v == w,
{
    let a = choose|u: Scalar| #[trigger]
        qmc::is_unit(reals, index, base, u) && qmc::is_value_at(reals, dist, u, v);
    let b = choose|u: Scalar| #[trigger]
        qmc::is_unit(reals, index, base, u) && qmc::is_value_at(reals, dist, u, w);
    units_agree(reals, index, base, a, b);
    values_at_agree(reals, dist, a, v, w);
}

proof fn traces_agree<R: Reals>(
    reals: &R,
    defs: SpaceModel,
    n: nat,
    index: u64,
    p: Assignment,
    q: Assignment,
)
    requires
        reals::is_steady(reals),
        qmc::is_traced(reals, defs, n, index, p),
        qmc::is_traced(reals, defs, n, index, q),
    ensures
        p == q,
    decreases n,
{
    if n > 0 {
        let d = defs[n - 1];
        let base = qmc::primes()[(n - 1) % 64];
        let x = choose|x: Assignment|
            qmc::is_traced(reals, defs, (n - 1) as nat, index, x) && #[trigger] qmc::takes_next(
                reals,
                d,
                index,
                base,
                x,
                p,
            );
        let y = choose|y: Assignment|
            qmc::is_traced(reals, defs, (n - 1) as nat, index, y) && #[trigger] qmc::takes_next(
                reals,
                d,
                index,
                base,
                y,
                q,
            );
        traces_agree(reals, defs, (n - 1) as nat, index, x, y);
        if d.active(x) {
            values_of_agree(reals, d.dist, index, base, p[d.name], q[d.name]);
        }
    }
}

/// Quasi-random search replays: a suggestion is determined by the number of trials and the points
/// that are skipped.
pub proof fn law_quasi_random_search_replays<P, R: Reals>(rig: Rig<P, R>)
    requires
        reals::is_steady(&rig.reals),
    ensures
        replay::sampler_replays(rig, |a: QmcSampler, b: QmcSampler| a == b),
{
    let same = |a: QmcSampler, b: QmcSampler| a == b;
    assert forall|
        s: QmcSampler,
        h: HistoryModel,
        p: Assignment,
        a: QmcSampler,
        t: QmcSampler,
        g: HistoryModel,
        q: Assignment,
        b: QmcSampler,
    |
        same(s, t) && replay::alike(h, g) && #[trigger] s.proposes(
            &rig.reals,
            rig.space,
            h,
            p,
            a,
        ) && #[trigger] t.proposes(&rig.reals, rig.space, g, q, b) implies p == q && same(a, b) by {
        traces_agree(
            &rig.reals,
            rig.space,
            rig.space.len(),
            s.index_of(h.len() as int),
            p,
            q,
        );
    }
}

/// The integer that lies at a place of the axis of an integer range is one.
pub proof fn int_off_axis_agrees<R: Reals>(
    reals: &R,
    low: i64,
    high: i64,
    log: bool,
    step: i64,
    t: Scalar,
    x: i64,
    y: i64,
)
    requires
        reals::is_steady(reals),
        axis::is_int_off_axis(reals, low, high, log, step, t, x),
        axis::is_int_off_axis(reals, low, high, log, step, t, y),
    ensures
        x == y,
{
}

proof fn nudges_agree<R: Reals>(
    reals: &R,
    bounds: Bounds,
    log: bool,
    step: Option<Scalar>,
    x: Scalar,
    scale: Scalar,
    rng: TrialRng,
    a: Scalar,
    r: TrialRng,
    b: Scalar,
    s: TrialRng,
)
    requires
        reals::is_steady(reals),
        evolution::is_float_nudge(reals, bounds, log, step, x, scale, rng, a, r),
        evolution::is_float_nudge(reals, bounds, log, step, x, scale, rng, b, s),
    ensures
        a == b,
        r == s,
{
    let from = if log {
        axis::at_least(x, Scalar { bits: evolution::TINIEST })
    } else {
        x
    };
    let (lo, hi, at, m) = choose|lo: Scalar, hi: Scalar, at: Scalar, m: Scalar|
        axis::lies_at(reals, bounds.low, log, lo) && axis::lies_at(reals, bounds.high, log, hi)
            && axis::lies_at(reals, from, log, at) && #[trigger] reals::is_nudge(
            reals,
            at,
            scale,
            lo,
            hi,
            rng,
            m,
            r,
        ) && axis::is_off_axis(reals, bounds, log, step, m.clamped(lo, hi), a);
    off_axis_agrees(reals, bounds, log, step, m.clamped(lo, hi), a, b);
}

proof fn int_nudges_agree<R: Reals>(
    reals: &R,
    low: i64,
    high: i64,
    log: bool,
    step: i64,
    x: i64,
    scale: Scalar,
    rng: TrialRng,
    a: i64,
    r: TrialRng,
    b: i64,
    s: TrialRng,
)
    requires
        reals::is_steady(reals),
        evolution::is_int_nudge(reals, low, high, log, step, x, scale, rng, a, r),
        evolution::is_int_nudge(reals, low, high, log, step, x, scale, rng, b, s),
    ensures
        a == b,
        r == s,
{
    let (lo, hi, plain, at, m) = choose|
        lo: Scalar,
        hi: Scalar,
        plain: Scalar,
        at: Scalar,
        m: Scalar,
    |
        axis::int_lies_at(reals, low, log, lo) && axis::int_lies_at(reals, high, log, hi)
            && #[trigger] reals::is_of_int(reals, x, plain) && axis::lies_at(
            reals,
            if log {
                axis::at_least(plain, Scalar { bits: crate::scalar::ONE })
            } else {
                plain
            },
            log,
            at,
        ) && #[trigger] reals::is_nudge(reals, at, scale, lo, hi, rng, m, r)
            && axis::is_int_off_axis(reals, low, high, log, step, m.clamped(lo, hi), a);
    int_off_axis_agrees(reals, low, high, log, step, m.clamped(lo, hi), a, b);
}

proof fn mutants_agree<R: Reals>(
    reals: &R,
    dist: DistModel,
    value: ParamModel,
    scale: Scalar,
    rng: TrialRng,
    v: ParamModel,
    r: TrialRng,
    w: ParamModel,
    s: TrialRng,
)
    requires
        reals::is_steady(reals),
        evolution::is_mutant(reals, dist, value, scale, rng, v, r),
        evolution::is_mutant(reals, dist, value, scale, rng, w, s),
    ensures
        v == w,
        r == s,
{
    match (dist, value) {
        (DistModel::Float { bounds, log, step }, ParamModel::Float(x)) => {
            nudges_agree(
                reals,
                bounds,
                log,
                step,
                x,
                scale,
                rng,
                v->Float_0,
                r,
                w->Float_0,
                s,
            );
        },
        (DistModel::Int { low, high, log, step }, ParamModel::Int(x)) => {
            int_nudges_agree(
                reals,
                low,
                high,
                log,
                step,
                x,
                scale,
                rng,
                v->Int_0,
                r,
                w->Int_0,
                s,
            );
        },
        _ => {
            replay::law_draws_replay(reals, dist, rng, v, r, w, s);
        },
    }
}

proof fn genes_agree<R: Reals>(
    reals: &R,
    dist: DistModel,
    heirloom: Option<ParamModel>,
    p: Scalar,
    scale: Scalar,
    rng: TrialRng,
    v: ParamModel,
    r: TrialRng,
    w: ParamModel,
    s: TrialRng,
)
    requires
        reals::is_steady(reals),
        evolution::is_gene(reals, dist, heirloom, p, scale, rng, v, r),
        evolution::is_gene(reals, dist, heirloom, p, scale, rng, w, s),
    ensures
        v == w,
        r == s,
{
    let (x, m) = choose|x: ParamModel, m: TrialRng| #[trigger]
        evolution::is_inherited(reals, dist, heirloom, rng, x, m) && if m.strikes(p) {
            evolution::is_mutant(reals, dist, x, scale, m.past_strike(p), v, r)
        } else {
            v == x && r == m.past_strike(p)
        };
    let (y, n) = choose|y: ParamModel, n: TrialRng| #[trigger]
        evolution::is_inherited(reals, dist, heirloom, rng, y, n) && if n.strikes(p) {
            evolution::is_mutant(reals, dist, y, scale, n.past_strike(p), w, s)
        } else {
            w == y && s == n.past_strike(p)
        };
    if heirloom is None {
        replay::law_draws_replay(reals, dist, rng, x, m, y, n);
    }
    if m.strikes(p) {
        mutants_agree(reals, dist, x, scale, m.past_strike(p), v, r, w, s);
    }
}

proof fn stages_agree<R: Reals>(
    reals: &R,
    space: Seq<DefModel>,
    parents: Parents,
    p: Scalar,
    scale: Scalar,
    rng: TrialRng,
    a: Seq<(Assignment, TrialRng)>,
    b: Seq<(Assignment, TrialRng)>,
    n: nat,
)
    requires
        reals::is_steady(reals),
        evolution::is_growth(reals, space, parents, p, scale, rng, a),
        evolution::is_growth(reals, space, parents, p, scale, rng, b),
        n < a.len(),
        n < b.len(),
    ensures
        a[n as int] == b[n as int],
    decreases n,
{
    if n > 0 {
        let i = n - 1;
        stages_agree(reals, space, parents, p, scale, rng, a, b, (n - 1) as nat);
        let d = space[i];
        assert(evolution::grows(reals, d, parents, p, scale, a[i], a[i + 1]));
        assert(evolution::grows(reals, d, parents, p, scale, b[i], b[i + 1]));
        if d.active(a[i].0) {
            genes_agree(
                reals,
                d.dist,
                parents.pass_on(d.name, a[i].1.flip()),
                p,
                scale,
                a[i].1.past_flip(),
                a[i + 1].0[d.name],
                a[i + 1].1,
                b[i + 1].0[d.name],
                b[i + 1].1,
            );
        }
    }
}

/// Two parents have one child at a position of the generator.
pub proof fn children_agree<R: Reals>(
    reals: &R,
    space: Seq<DefModel>,
    parents: Parents,
    p: Scalar,
    scale: Scalar,
    rng: TrialRng,
    x: Assignment,
    r: TrialRng,
    y: Assignment,
    s: TrialRng,
)
    requires
        reals::is_steady(reals),
        evolution::is_child(reals, space, parents, p, scale, rng, x, r),
        evolution::is_child(reals, space, parents, p, scale, rng, y, s),
    ensures
        x == y,
{
    let a = choose|a: Seq<(Assignment, TrialRng)>| #[trigger]
        evolution::is_growth(reals, space, parents, p, scale, rng, a) && a.len() == space.len() + 1
            && a.last() == (x, r);
    let b = choose|b: Seq<(Assignment, TrialRng)>| #[trigger]
        evolution::is_growth(reals, space, parents, p, scale, rng, b) && b.len() == space.len() + 1
            && b.last() == (y, s);
    stages_agree(reals, space, parents, p, scale, rng, a, b, space.len());
}

/// Histories that show the same have the same parents to offer.
pub proof fn pools_agree(h: HistoryModel, g: HistoryModel, objective: Seq<char>)
    requires
        replay::alike(h, g),
    ensures
        models::pick(h, evolution::fit_parent(objective)) == models::pick(
            g,
            evolution::fit_parent(objective),
        ),
{
    let f = evolution::fit_parent(objective);
    assert forall|i: int| 0 <= i < h.len() implies f(#[trigger] h[i]) == f(g[i]) by {
        assert(replay::same_face(h[i], g[i]));
    }
    replay::picks_agree(h, g, f);
}

/// Evolutionary search replays: a suggestion is determined by the seed and by what the history
/// shows.
pub proof fn law_evolutionary_search_replays<P, R: Reals>(rig: Rig<P, R>)
    requires
        reals::is_steady(&rig.reals),
    ensures
        replay::sampler_replays(rig, |a: EvolutionarySampler, b: EvolutionarySampler| a == b),
{
    let same = |a: EvolutionarySampler, b: EvolutionarySampler| a == b;
    assert forall|
        s: EvolutionarySampler,
        h: HistoryModel,
        p: Assignment,
        a: EvolutionarySampler,
        t: EvolutionarySampler,
        g: HistoryModel,
        q: Assignment,
        b: EvolutionarySampler,
    |
        same(s, t) && replay::alike(h, g) && #[trigger] s.proposes(
            &rig.reals,
            rig.space,
            h,
            p,
            a,
        ) && #[trigger] t.proposes(&rig.reals, rig.space, g, q, b) implies p == q && same(a, b) by {
        let reals = &rig.reals;
        pools_agree(h, g, s.aims_at());
        let pool = models::pick(h, evolution::fit_parent(s.aims_at()));
        if pool.len() < s.population() {
            replay::suggestions_agree(reals, rig.space, s.seeded(), h.len() as int, p, q);
        } else {
            let (parents, rng) = s.couple(h);
            assert(s.couple(g) == (parents, rng));
            let r = choose|r: TrialRng| #[trigger]
                evolution::is_child(
                    reals,
                    rig.space,
                    parents,
                    s.mutates(),
                    s.spreads(),
                    rng,
                    p,
                    r,
                );
            let u = choose|u: TrialRng| #[trigger]
                evolution::is_child(
                    reals,
                    rig.space,
                    parents,
                    s.mutates(),
                    s.spreads(),
                    rng,
                    q,
                    u,
                );
            children_agree(
                reals,
                rig.space,
                parents,
                s.mutates(),
                s.spreads(),
                rng,
                p,
                r,
                q,
                u,
            );
        }
    }
}

proof fn medians_agree<R: Reals>(
    reals: &R,
    values: Seq<Scalar>,
    a: Option<Scalar>,
    b: Option<Scalar>,
)
    requires
        reals::is_steady(reals),
        pruner::is_median(reals, values, a),
        pruner::is_median(reals, values, b),
    ensures
        a == b,
{
    let keys = order::numbers(values);
    let m = choose|m: Middle| #[trigger]
        order::is_middle(values, m) && match m {
            Middle::Nothing => a is None,
            Middle::One(x) => a == Some(x),
            Middle::Two(x, y) => a matches Some(z) && reals::is_midpoint(reals, x, y, z),
        };
    let n = choose|n: Middle| #[trigger]
        order::is_middle(values, n) && match n {
            Middle::Nothing => b is None,
            Middle::One(x) => b == Some(x),
            Middle::Two(x, y) => b matches Some(z) && reals::is_midpoint(reals, x, y, z),
        };
    let s = choose|s: Seq<Scalar>| #[trigger]
        order::is_ascending(keys, s) && m == order::middle(s);
    let t = choose|t: Seq<Scalar>| #[trigger]
        order::is_ascending(keys, t) && n == order::middle(t);
    let p = choose|p: Seq<usize>| #[trigger]
        order::is_ranking(keys, Direction::Minimize, p) && s == order::arranged(keys, p);
    let q = choose|q: Seq<usize>| #[trigger]
        order::is_ranking(keys, Direction::Minimize, q) && t == order::arranged(keys, q);
    order::law_ranking_is_unique(keys, Direction::Minimize, p, q);
}

/// The median pruner gives the same verdicts again.
pub proof fn law_median_pruning_replays<R: Reals>(rig: Rig<MedianPruner, R>)
    requires
        reals::is_steady(&rig.reals),
    ensures
        replay::pruner_replays(rig),
{
    assert forall|
        reports: Seq<ReportModel>,
        h: HistoryModel,
        a: bool,
        g: HistoryModel,
        b: bool,
    |
        replay::alike(h, g) && #[trigger] rig.pruner.judges(&rig.reals, reports, h, a)
            && #[trigger] rig.pruner.judges(&rig.reals, reports, g, b) implies a == b by {
        let model = rig.pruner@;
        let reals = &rig.reals;
        let f = trial::completed_value_at(reports.last().step, model.objective);
        assert forall|i: int| 0 <= i < h.len() implies f(#[trigger] h[i]) == f(g[i]) by {
            assert(replay::same_face(h[i], g[i]));
        }
        replay::picks_agree(h, g, f);
        assert(model.peers(reports, h) == model.peers(reports, g));
        if model.ripe(reports, h) {
            assert forall|x: Option<Scalar>, y: Option<Scalar>|
                #[trigger] model.stands_at(reals, reports, x) && #[trigger] model.stands_at(
                    reals,
                    reports,
                    y,
                ) implies x == y by {
                if model.robust_window > 1 {
                    medians_agree(reals, model.own(reports), x, y);
                }
            }
            let values = model.peers(reports, h);
            assert forall|x: Option<Scalar>, y: Option<Scalar>|
                #[trigger] pruner::is_median(reals, values, x) && #[trigger] pruner::is_median(
                    reals,
                    values,
                    y,
                ) implies x == y by {
                medians_agree(reals, values, x, y);
            }
        }
    }
}

} // verus!
