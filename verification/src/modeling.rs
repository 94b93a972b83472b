//! Model-based search over steady arithmetic: the mixtures, the candidates and the choice among
//! them are determined by what the history shows.

use vstd::prelude::*;
#[allow(unused_imports)]
use crate::distribution::{Bounds, DistModel};
#[allow(unused_imports)]
use crate::metrics::Direction;
#[allow(unused_imports)]
use crate::param::{Assignment, ParamModel};
#[allow(unused_imports)]
use crate::parzen::Parzen;
#[allow(unused_imports)]
use crate::reals::Reals;
#[allow(unused_imports)]
use crate::rng::TrialRng;
#[allow(unused_imports)]
use crate::run::Rig;
#[allow(unused_imports)]
use crate::sampler::Sampler;
#[allow(unused_imports)]
use crate::scalar::Scalar;
#[allow(unused_imports)]
use crate::space::{DefModel, SpaceModel};
#[allow(unused_imports)]
use crate::tpe::TpeSampler;
#[allow(unused_imports)]
use crate::trial::HistoryModel;
#[allow(unused_imports)]
use crate::axis;
#[allow(unused_imports)]
use crate::evolution;
#[allow(unused_imports)]
use crate::models;
#[allow(unused_imports)]
use crate::order;
#[allow(unused_imports)]
use crate::parzen;
#[allow(unused_imports)]
use crate::reals;
#[allow(unused_imports)]
use crate::replay;
#[allow(unused_imports)]
use crate::sampler;
#[allow(unused_imports)]
use crate::steady;
#[allow(unused_imports)]
use crate::tpe;

verus! {

/// Whether two mixtures have the same components on the same axis.
spec fn same_mixture(a: Parzen, b: Parzen) -> bool {
    &&& a.mus@ == b.mus@
    &&& a.sigmas@ == b.sigmas@
    &&& a.lo == b.lo
    &&& a.hi == b.hi
}

proof fn float_places_agree<R: Reals>(reals: &R, v: ParamModel, log: bool, s: Scalar, t: Scalar)
    requires
        reals::is_steady(reals),
        tpe::float_stands_at(reals, v, log, s),
        tpe::float_stands_at(reals, v, log, t),
    ensures
        s == t,
{
}

proof fn int_places_agree<R: Reals>(reals: &R, v: ParamModel, log: bool, s: Scalar, t: Scalar)
    requires
        reals::is_steady(reals),
        tpe::int_stands_at(reals, v, log, s),
        tpe::int_stands_at(reals, v, log, t),
    ensures
        s == t,
{
    if let ParamModel::Int(i) = v {
        let x = choose|x: Scalar| #[trigger]
            reals::is_of_int(reals, i, x) && tpe::float_stands_at(
                reals,
                ParamModel::Float(x),
                log,
                s,
            );
        float_places_agree(reals, ParamModel::Float(x), log, s, t);
    }
}

proof fn places_agree<R: Reals>(
    reals: &R,
    obs: Seq<ParamModel>,
    whole: bool,
    log: bool,
    a: Seq<Scalar>,
    b: Seq<Scalar>,
)
    requires
        reals::is_steady(reals),
        tpe::all_stand_at(reals, obs, whole, log, a),
        tpe::all_stand_at(reals, obs, whole, log, b),
    ensures
        a == b,
{
    assert forall|i: int| 0 <= i < a.len() implies a[i] == b[i] by {
        let (s, t) = (a[i], b[i]);
        if whole {
            int_places_agree(reals, obs[i], log, s, t);
        } else {
            float_places_agree(reals, obs[i], log, s, t);
        }
    }
    assert(a =~= b);
}

proof fn components_agree<R: Reals>(reals: &R, obs: Seq<Scalar>, a: Parzen, b: Parzen)
    requires
        reals::is_steady(reals),
        a.models(reals, obs),
        b.models(reals, obs),
        a.lo == b.lo,
        a.hi == b.hi,
    ensures
        same_mixture(a, b),
{
    let n = a.mus@.len() as int;
    assert(a.mus@.drop_last().len() == b.mus@.drop_last().len());
    assert forall|i: int| 0 <= i < n implies a.mus@[i] == b.mus@[i] by {
        if i < n - 1 {
            assert(a.mus@.drop_last()[i] == b.mus@.drop_last()[i]);
        } else {
            assert(a.mus@.last() == b.mus@.last());
        }
    }
    assert(a.mus@ =~= b.mus@);
    assert(a.sigmas@.last() == b.sigmas@.last());
    let list = order::sorted(a.mus@, Direction::Minimize);
    let most = a.sigmas@.last();
    let (g, l) = choose|g: Seq<Scalar>, l: Scalar|
        parzen::are_gaps(reals, a.mus@, list, g) && reals::is_quotient(
            reals,
            most,
            Scalar { bits: parzen::HUNDRED },
            l,
        ) && #[trigger] parzen::is_banded(list, g, l, most, a.sigmas@);
    let (h, m) = choose|h: Seq<Scalar>, m: Scalar|
        parzen::are_gaps(reals, b.mus@, list, h) && reals::is_quotient(
            reals,
            most,
            Scalar { bits: parzen::HUNDRED },
            m,
        ) && #[trigger] parzen::is_banded(list, h, m, most, b.sigmas@);
    assert forall|r: int| 0 <= r < g.len() implies g[r] == h[r] by {
        let (x, y) = (a.mus@[list[r + 1] as int], a.mus@[list[r] as int]);
        assert(reals::is_difference(reals, x, y, g[r]));
        assert(reals::is_difference(reals, x, y, h[r]));
    }
    assert(g =~= h);
    assert forall|i: int| 0 <= i < n implies a.sigmas@[i] == b.sigmas@[i] by {
        order::permutation_is_onto(list, n, i);
        let r = choose|r: int| 0 <= r < list.len() && #[trigger] list[r] == i;
        assert(a.sigmas@[list[r] as int] == b.sigmas@[list[r] as int]);
    }
    assert(a.sigmas@ =~= b.sigmas@);
}

proof fn mixtures_agree<R: Reals>(
    reals: &R,
    a: Parzen,
    b: Parzen,
    obs: Seq<ParamModel>,
    whole: bool,
    log: bool,
    lo: Scalar,
    hi: Scalar,
)
    requires
        reals::is_steady(reals),
        tpe::is_mixture(reals, a, obs, whole, log, lo, hi),
        tpe::is_mixture(reals, b, obs, whole, log, lo, hi),
    ensures
        same_mixture(a, b),
{
    let s = choose|s: Seq<Scalar>| #[trigger]
        tpe::all_stand_at(reals, obs, whole, log, s) && a.models(reals, s) && a.lo == lo && a.hi
            == hi;
    let t = choose|t: Seq<Scalar>| #[trigger]
        tpe::all_stand_at(reals, obs, whole, log, t) && b.models(reals, t) && b.lo == lo && b.hi
            == hi;
    places_agree(reals, obs, whole, log, s, t);
    components_agree(reals, s, a, b);
}

proof fn tries_agree<R: Reals>(
    reals: &R,
    a: Parzen,
    b: Parzen,
    k: int,
    tries: nat,
    rng: TrialRng,
    x: Scalar,
    r: TrialRng,
    y: Scalar,
    s: TrialRng,
)
    requires
        reals::is_steady(reals),
        same_mixture(a, b),
        a.is_tried(reals, k, tries, rng, x, r),
        b.is_tried(reals, k, tries, rng, y, s),
    ensures
        x == y,
        r == s,
    decreases tries,
{
    let (mu, sigma) = (a.mus@[k], a.sigmas@[k]);
    let (d, t) = choose|d: Scalar, t: TrialRng| #[trigger]
        reals::is_normal(reals, mu, sigma, rng, d, t) && if tries == 0 {
            let moved = d.clamped(a.lo, a.hi);
            r == t && x == if moved.nan() {
                a.lo
            } else {
                moved
            }
        } else if a.holds(d) {
            x == d && r == t
        } else {
            a.is_tried(reals, k, (tries - 1) as nat, t, x, r)
        };
    let (e, u) = choose|e: Scalar, u: TrialRng| #[trigger]
        reals::is_normal(reals, mu, sigma, rng, e, u) && if tries == 0 {
            let moved = e.clamped(b.lo, b.hi);
            s == u && y == if moved.nan() {
                b.lo
            } else {
                moved
            }
        } else if b.holds(e) {
            y == e && s == u
        } else {
            b.is_tried(reals, k, (tries - 1) as nat, u, y, s)
        };
    assert(d == e && t == u);
    if tries > 0 && !a.holds(d) {
        tries_agree(reals, a, b, k, (tries - 1) as nat, t, x, r, y, s);
    }
}

proof fn densities_agree<R: Reals>(
    reals: &R,
    a: Parzen,
    b: Parzen,
    x: Scalar,
    r: Scalar,
    s: Scalar,
)
    requires
        reals::is_steady(reals),
        same_mixture(a, b),
        a.has_log_density(reals, x, r),
        b.has_log_density(reals, x, s),
    ensures
        r == s,
{
    let (t, m) = choose|t: Seq<Scalar>, m: Scalar|
        t.len() == a.mus@.len() && #[trigger] a.are_terms(reals, x, t)
            && #[trigger] parzen::is_greatest(t, m) && if m.pattern() == parzen::LOWEST {
            r == m
        } else {
            reals::is_log_sum(reals, t, m, r)
        };
    let (u, n) = choose|u: Seq<Scalar>, n: Scalar|
        u.len() == b.mus@.len() && #[trigger] b.are_terms(reals, x, u)
            && #[trigger] parzen::is_greatest(u, n) && if n.pattern() == parzen::LOWEST {
            s == n
        } else {
            reals::is_log_sum(reals, u, n, s)
        };
    assert forall|i: int| 0 <= i < t.len() implies t[i] == u[i] by {
        let (p, q) = (t[i], u[i]);
        assert(reals::is_log_density(
            reals,
            x,
            a.mus@[i],
            a.sigmas@[i],
            a.mus@.len() as usize,
            p,
        ));
        assert(reals::is_log_density(
            reals,
            x,
            a.mus@[i],
            a.sigmas@[i],
            a.mus@.len() as usize,
            q,
        ));
    }
    assert(t =~= u);
}

proof fn scores_agree<R: Reals>(
    reals: &R,
    l: Parzen,
    g: Parzen,
    m: Parzen,
    h: Parzen,
    x: Scalar,
    r: Scalar,
    s: Scalar,
)
    requires
        reals::is_steady(reals),
        same_mixture(l, m),
        same_mixture(g, h),
        parzen::is_score(&l, &g, reals, x, r),
        parzen::is_score(&m, &h, reals, x, s),
    ensures
        r == s,
{
    let (a, b) = choose|a: Scalar, b: Scalar| #[trigger]
        l.has_log_density(reals, x, a) && #[trigger] g.has_log_density(reals, x, b)
            && reals::is_difference(reals, a, b, r);
    let (c, d) = choose|c: Scalar, d: Scalar| #[trigger]
        m.has_log_density(reals, x, c) && #[trigger] h.has_log_density(reals, x, d)
            && reals::is_difference(reals, c, d, s);
    densities_agree(reals, l, m, x, a, c);
    densities_agree(reals, g, h, x, b, d);
}

proof fn candidates_agree<R: Reals>(
    reals: &R,
    l: Parzen,
    g: Parzen,
    m: Parzen,
    h: Parzen,
    from: TrialRng,
    a: Seq<(Scalar, Scalar)>,
    r: TrialRng,
    b: Seq<(Scalar, Scalar)>,
    s: TrialRng,
)
    requires
        reals::is_steady(reals),
        same_mixture(l, m),
        same_mixture(g, h),
        a.len() == b.len(),
        parzen::are_candidates(&l, &g, reals, a, from, r),
        parzen::are_candidates(&m, &h, reals, b, from, s),
    ensures
        a == b,
        r == s,
    decreases a.len(),
{
    if a.len() > 0 {
        let t = choose|t: TrialRng|
            parzen::are_candidates(&l, &g, reals, a.drop_last(), from, t) && #[trigger] l.is_sample(
                reals,
                t,
                a.last().0,
                r,
            ) && parzen::is_score(&l, &g, reals, a.last().0, a.last().1);
        let u = choose|u: TrialRng|
            parzen::are_candidates(&m, &h, reals, b.drop_last(), from, u) && #[trigger] m.is_sample(
                reals,
                u,
                b.last().0,
                s,
            ) && parzen::is_score(&m, &h, reals, b.last().0, b.last().1);
        candidates_agree(reals, l, g, m, h, from, a.drop_last(), t, b.drop_last(), u);
        let n = l.mus@.len() as u64;
        tries_agree(
            reals,
            l,
            m,
            t.pick(n) as int,
            parzen::TRIES as nat,
            t.past_pick(n),
            a.last().0,
            r,
            b.last().0,
            s,
        );
        scores_agree(reals, l, g, m, h, a.last().0, a.last().1, b.last().1);
        assert(a =~= a.drop_last().push(a.last()));
        assert(b =~= b.drop_last().push(b.last()));
    } else {
        assert(a =~= b);
    }
}

proof fn leaders_agree<R: Reals>(
    reals: &R,
    good: Seq<ParamModel>,
    bad: Seq<ParamModel>,
    whole: bool,
    log: bool,
    lo: Scalar,
    hi: Scalar,
    n: usize,
    rng: TrialRng,
    x: Scalar,
    r: TrialRng,
    y: Scalar,
    s: TrialRng,
)
    requires
        reals::is_steady(reals),
        tpe::is_leading(reals, good, bad, whole, log, lo, hi, n, rng, x, r),
        tpe::is_leading(reals, good, bad, whole, log, lo, hi, n, rng, y, s),
    ensures
        x == y,
        r == s,
{
    let len: nat = if n < 1 {
        1
    } else {
        n as nat
    };
    let (l, g, a) = choose|l: Parzen, g: Parzen, a: Seq<(Scalar, Scalar)>|
        tpe::is_mixture(reals, l, good, whole, log, lo, hi) && tpe::is_mixture(
            reals,
            g,
            bad,
            whole,
            log,
            lo,
            hi,
        ) && a.len() == len && #[trigger] parzen::are_candidates(&l, &g, reals, a, rng, r) && x
            == a[tpe::leader(tpe::scores_of(a))].0;
    let (m, h, b) = choose|m: Parzen, h: Parzen, b: Seq<(Scalar, Scalar)>|
        tpe::is_mixture(reals, m, good, whole, log, lo, hi) && tpe::is_mixture(
            reals,
            h,
            bad,
            whole,
            log,
            lo,
            hi,
        ) && b.len() == len && #[trigger] parzen::are_candidates(&m, &h, reals, b, rng, s) && y
            == b[tpe::leader(tpe::scores_of(b))].0;
    mixtures_agree(reals, l, m, good, whole, log, lo, hi);
    mixtures_agree(reals, g, h, bad, whole, log, lo, hi);
    candidates_agree(reals, l, g, m, h, rng, a, r, b, s);
}

proof fn floats_agree<R: Reals>(
    reals: &R,
    bounds: Bounds,
    log: bool,
    step: Option<Scalar>,
    good: Seq<ParamModel>,
    bad: Seq<ParamModel>,
    n: usize,
    rng: TrialRng,
    x: Scalar,
    r: TrialRng,
    y: Scalar,
    s: TrialRng,
)
    requires
        reals::is_steady(reals),
        tpe::is_modeled_float(reals, bounds, log, step, good, bad, n, rng, x, r),
        tpe::is_modeled_float(reals, bounds, log, step, good, bad, n, rng, y, s),
    ensures
        x == y,
        r == s,
{
    let (lo, hi, t) = choose|lo: Scalar, hi: Scalar, t: Scalar|
        axis::lies_at(reals, bounds.low, log, lo) && axis::lies_at(reals, bounds.high, log, hi)
            && #[trigger] tpe::is_leading(reals, good, bad, false, log, lo, hi, n, rng, t, r)
            && axis::is_off_axis(reals, bounds, log, step, t, x);
    let (a, b, u) = choose|a: Scalar, b: Scalar, u: Scalar|
        axis::lies_at(reals, bounds.low, log, a) && axis::lies_at(reals, bounds.high, log, b)
            && #[trigger] tpe::is_leading(reals, good, bad, false, log, a, b, n, rng, u, s)
            && axis::is_off_axis(reals, bounds, log, step, u, y);
    assert(lo == a && hi == b);
    leaders_agree(reals, good, bad, false, log, lo, hi, n, rng, t, r, u, s);
    steady::off_axis_agrees(reals, bounds, log, step, t, x, y);
}

proof fn ints_agree<R: Reals>(
    reals: &R,
    low: i64,
    high: i64,
    log: bool,
    step: i64,
    good: Seq<ParamModel>,
    bad: Seq<ParamModel>,
    n: usize,
    rng: TrialRng,
    x: i64,
    r: TrialRng,
    y: i64,
    s: TrialRng,
)
    requires
        reals::is_steady(reals),
        tpe::is_modeled_int(reals, low, high, log, step, good, bad, n, rng, x, r),
        tpe::is_modeled_int(reals, low, high, log, step, good, bad, n, rng, y, s),
    ensures
        x == y,
        r == s,
{
    let (lo, hi, t) = choose|lo: Scalar, hi: Scalar, t: Scalar|
        axis::int_lies_at(reals, low, log, lo) && axis::int_lies_at(reals, high, log, hi)
            && #[trigger] tpe::is_leading(reals, good, bad, true, log, lo, hi, n, rng, t, r)
            && axis::is_int_off_axis(reals, low, high, log, step, t, x);
    let (a, b, u) = choose|a: Scalar, b: Scalar, u: Scalar|
        axis::int_lies_at(reals, low, log, a) && axis::int_lies_at(reals, high, log, b)
            && #[trigger] tpe::is_leading(reals, good, bad, true, log, a, b, n, rng, u, s)
            && axis::is_int_off_axis(reals, low, high, log, step, u, y);
    assert(lo == a && hi == b);
    leaders_agree(reals, good, bad, true, log, lo, hi, n, rng, t, r, u, s);
    steady::int_off_axis_agrees(reals, low, high, log, step, t, x, y);
}

proof fn models_agree<R: Reals>(
    reals: &R,
    dist: DistModel,
    good: Seq<ParamModel>,
    bad: Seq<ParamModel>,
    n: usize,
    rng: TrialRng,
    v: ParamModel,
    r: TrialRng,
    w: ParamModel,
    s: TrialRng,
)
    requires
        reals::is_steady(reals),
        tpe::is_modeled(reals, dist, good, bad, n, rng, v, r),
        tpe::is_modeled(reals, dist, good, bad, n, rng, w, s),
    ensures
        v == w,
        r == s,
{
    match dist {
        DistModel::Float { bounds, log, step } => {
            floats_agree(
                reals,
                bounds,
                log,
                step,
                good,
                bad,
                n,
                rng,
                v->Float_0,
                r,
                w->Float_0,
                s,
            );
        },
        DistModel::Int { low, high, log, step } => {
            ints_agree(
                reals,
                low,
                high,
                log,
                step,
                good,
                bad,
                n,
                rng,
                v->Int_0,
                r,
                w->Int_0,
                s,
            );
        },
        _ => {},
    }
}

proof fn stages_agree<R: Reals>(
    reals: &R,
    space: SpaceModel,
    good: Seq<Assignment>,
    bad: Seq<Assignment>,
    n: usize,
    enough: int,
    rng: TrialRng,
    a: Seq<(Assignment, TrialRng)>,
    b: Seq<(Assignment, TrialRng)>,
    k: nat,
)
    requires
        reals::is_steady(reals),
        tpe::is_proposal(reals, space, good, bad, n, enough, rng, a),
        tpe::is_proposal(reals, space, good, bad, n, enough, rng, b),
        k < a.len(),
        k < b.len(),
    ensures
        a[k as int] == b[k as int],
    decreases k,
{
    if k > 0 {
        let i = k - 1;
        stages_agree(reals, space, good, bad, n, enough, rng, a, b, (k - 1) as nat);
        let d = space[i];
        assert(tpe::proposes(reals, d, good, bad, n, enough, a[i], a[i + 1]));
        assert(tpe::proposes(reals, d, good, bad, n, enough, b[i], b[i + 1]));
        if d.active(a[i].0) {
            let seen = models::pick(good, tpe::observed(d.name));
            let (v, w) = (a[i + 1].0[d.name], b[i + 1].0[d.name]);
            if seen.len() < enough {
                replay::law_draws_replay(
                    reals,
                    d.dist,
                    a[i].1,
                    v,
                    a[i + 1].1,
                    w,
                    b[i + 1].1,
                );
            } else {
                models_agree(
                    reals,
                    d.dist,
                    seen,
                    models::pick(bad, tpe::observed(d.name)),
                    n,
                    a[i].1,
                    v,
                    a[i + 1].1,
                    w,
                    b[i + 1].1,
                );
            }
        }
    }
}

proof fn splits_agree<R: Reals>(
    reals: &R,
    h: HistoryModel,
    g: HistoryModel,
    objective: Seq<char>,
    d: Direction,
    gamma: Scalar,
    good: Seq<Assignment>,
    bad: Seq<Assignment>,
    fine: Seq<Assignment>,
    poor: Seq<Assignment>,
)
    requires
        reals::is_steady(reals),
        replay::alike(h, g),
        tpe::is_split(reals, h, objective, d, gamma, good, bad),
        tpe::is_split(reals, g, objective, d, gamma, fine, poor),
    ensures
        good == fine,
        bad == poor,
{
    steady::pools_agree(h, g, objective);
    let pool = models::pick(h, evolution::fit_parent(objective));
    let values = pool.map_values(|p: (Assignment, Scalar)| p.1);
    let p = choose|p: Seq<usize>| #[trigger]
        order::is_ranking(values, d, p) && good + bad == Seq::new(
            p.len(),
            |i: int| pool[p[i] as int].0,
        );
    let q = choose|q: Seq<usize>| #[trigger]
        order::is_ranking(values, d, q) && fine + poor == Seq::new(
            q.len(),
            |i: int| pool[q[i] as int].0,
        );
    order::law_ranking_is_unique(values, d, p, q);
    let all = good + bad;
    assert(all == fine + poor);
    let n = good.len() as int;
    assert(fine.len() == n);
    assert(good =~= all.take(n));
    assert(fine =~= all.take(n));
    assert(bad =~= all.skip(n));
    assert(poor =~= all.skip(n));
}

/// Model-based search replays: a suggestion is determined by the seed and by what the history
/// shows.
pub proof fn law_model_based_search_replays<P, R: Reals>(rig: Rig<P, R>)
    requires
        reals::is_steady(&rig.reals),
    ensures
        replay::sampler_replays(rig, |a: TpeSampler, b: TpeSampler| a == b),
{
    let same = |a: TpeSampler, b: TpeSampler| a == b;
    assert forall|
        s: TpeSampler,
        h: HistoryModel,
        p: Assignment,
        a: TpeSampler,
        t: TpeSampler,
        g: HistoryModel,
        q: Assignment,
        b: TpeSampler,
    |
        same(s, t) && replay::alike(h, g) && #[trigger] s.proposes(
            &rig.reals,
            rig.space,
            h,
            p,
            a,
        ) && #[trigger] t.proposes(&rig.reals, rig.space, g, q, b) implies p == q && same(a, b) by {
        proposals_agree(&rig.reals, rig.space, s, h, p, g, q);
    }
}

proof fn proposals_agree<R: Reals>(
    reals: &R,
    space: SpaceModel,
    s: TpeSampler,
    h: HistoryModel,
    p: Assignment,
    g: HistoryModel,
    q: Assignment,
)
    requires
        reals::is_steady(reals),
        replay::alike(h, g),
        s.proposes(reals, space, h, p, s),
        s.proposes(reals, space, g, q, s),
    ensures
        p == q,
{
    let m = s@;
    steady::pools_agree(h, g, m.objective);
    let seen = models::pick(h, evolution::fit_parent(m.objective)).len();
    if seen < m.n_startup_trials || seen < 2 {
        replay::suggestions_agree(reals, space, m.seed, h.len() as int, p, q);
    } else {
        let (good, bad) = choose|good: Seq<Assignment>, bad: Seq<Assignment>| #[trigger]
            tpe::is_split(reals, h, m.objective, m.direction, m.gamma, good, bad) && m.proposed(
                reals,
                space,
                h,
                good,
                bad,
                p,
            );
        let (fine, poor) = choose|fine: Seq<Assignment>, poor: Seq<Assignment>| #[trigger]
            tpe::is_split(reals, g, m.objective, m.direction, m.gamma, fine, poor) && m.proposed(
                reals,
                space,
                g,
                fine,
                poor,
                q,
            );
        splits_agree(
            reals,
            h,
            g,
            m.objective,
            m.direction,
            m.gamma,
            good,
            bad,
            fine,
            poor,
        );
        let rng = TrialRng { seed: sampler::suggestion_seed(m.seed, h.len() as int), word: 0 };
        let (n, enough) = (m.n_candidates, m.min_branch_obs as int);
        let x = choose|x: Seq<(Assignment, TrialRng)>| #[trigger]
            tpe::is_proposal(reals, space, good, bad, n, enough, rng, x) && x.len() == space.len()
                + 1 && x.last().0 == p;
        let y = choose|y: Seq<(Assignment, TrialRng)>| #[trigger]
            tpe::is_proposal(reals, space, good, bad, n, enough, rng, y) && y.len() == space.len()
                + 1 && y.last().0 == q;
        stages_agree(reals, space, good, bad, n, enough, rng, x, y, space.len());
    }
}

} // verus!
