//! Multi-objective search over steady arithmetic: the fronts, the crowding distances and the
//! parents are determined by what the history shows.

use vstd::prelude::*;
#[allow(unused_imports)]
use crate::metrics::Direction;
#[allow(unused_imports)]
use crate::nsga2::{Nsga2Model, Nsga2Sampler};
#[allow(unused_imports)]
use crate::param::Assignment;
#[allow(unused_imports)]
use crate::reals::Reals;
#[allow(unused_imports)]
use crate::rng::TrialRng;
#[allow(unused_imports)]
use crate::run::Rig;
#[allow(unused_imports)]
use crate::sampler::{RandomSampler, Sampler};
#[allow(unused_imports)]
use crate::scalar::Scalar;
#[allow(unused_imports)]
use crate::space::SpaceModel;
#[allow(unused_imports)]
use crate::trial::HistoryModel;
#[allow(unused_imports)]
use crate::evolution;
#[allow(unused_imports)]
use crate::models;
#[allow(unused_imports)]
use crate::nsga2;
#[allow(unused_imports)]
use crate::order;
#[allow(unused_imports)]
use crate::reals;
#[allow(unused_imports)]
use crate::replay;
#[allow(unused_imports)]
use crate::sampler;
#[allow(unused_imports)]
use crate::steady;

verus! {

/// Whether two lists agree at the positions of a front.
spec fn agree_at(front: Seq<int>, a: Seq<Scalar>, b: Seq<Scalar>) -> bool {
    forall|k: int| 0 <= k < front.len() ==> a[#[trigger] front[k]] == b[front[k]]
}

proof fn axis_agrees<R: Reals>(
    reals: &R,
    front: Seq<int>,
    keys: Seq<Scalar>,
    before: Seq<Scalar>,
    after: Seq<Scalar>,
    then: Seq<Scalar>,
    thereafter: Seq<Scalar>,
)
    requires
        reals::is_steady(reals),
        keys.len() == front.len(),
        agree_at(front, before, then),
        nsga2::axis_crowds(reals, front, keys, before, after),
        nsga2::axis_crowds(reals, front, keys, then, thereafter),
    ensures
        agree_at(front, after, thereafter),
{
    let p = choose|p: Seq<usize>| #[trigger]
        order::is_ranking(keys, Direction::Minimize, p) && forall|q: int|
            0 <= q < p.len() ==> #[trigger] nsga2::place_crowds(
                reals,
                front,
                keys,
                p,
                before,
                after,
                q,
            );
    let o = choose|o: Seq<usize>| #[trigger]
        order::is_ranking(keys, Direction::Minimize, o) && forall|q: int|
            0 <= q < o.len() ==> #[trigger] nsga2::place_crowds(
                reals,
                front,
                keys,
                o,
                then,
                thereafter,
                q,
            );
    order::law_ranking_is_unique(keys, Direction::Minimize, p, o);
    assert forall|k: int| 0 <= k < front.len() implies after[#[trigger] front[k]]
        == thereafter[front[k]] by {
        order::permutation_is_onto(p, keys.len() as int, k);
        let q = choose|q: int| 0 <= q < p.len() && #[trigger] p[q] == k;
        assert(nsga2::place_crowds(reals, front, keys, p, before, after, q));
        assert(nsga2::place_crowds(reals, front, keys, p, then, thereafter, q));
        let i = front[k];
        assert(before[i] == then[i]);
        let (x, y) = (after[i], thereafter[i]);
        assert(x == y);
    }
}

proof fn axes_agree<R: Reals>(
    reals: &R,
    pop: Seq<Seq<Scalar>>,
    front: Seq<int>,
    m: nat,
    start: Seq<Scalar>,
    a: Seq<Scalar>,
    b: Seq<Scalar>,
)
    requires
        reals::is_steady(reals),
        nsga2::axes_crowd(reals, pop, front, m, start, a),
        nsga2::axes_crowd(reals, pop, front, m, start, b),
    ensures
        agree_at(front, a, b),
    decreases m,
{
    if m > 0 {
        let keys = nsga2::keys_of(pop, front, m - 1);
        let x = choose|x: Seq<Scalar>|
            nsga2::axes_crowd(reals, pop, front, (m - 1) as nat, start, x) && x.len() == a.len()
                && #[trigger] nsga2::axis_crowds(reals, front, keys, x, a);
        let y = choose|y: Seq<Scalar>|
            nsga2::axes_crowd(reals, pop, front, (m - 1) as nat, start, y) && y.len() == b.len()
                && #[trigger] nsga2::axis_crowds(reals, front, keys, y, b);
        axes_agree(reals, pop, front, (m - 1) as nat, start, x, y);
        axis_agrees(reals, front, keys, x, a, y, b);
    }
}

proof fn front_holds(ranks: Seq<usize>, r: usize, n: int, i: int)
    requires
        0 <= i < n,
        ranks[i] == r,
    ensures
        exists|k: int|
            0 <= k < nsga2::front_positions(ranks, r, n).len()
                && #[trigger] nsga2::front_positions(ranks, r, n)[k] == i,
    decreases n,
{
    let front = nsga2::front_positions(ranks, r, n);
    let rest = nsga2::front_positions(ranks, r, n - 1);
    if i == n - 1 {
        assert(front[rest.len() as int] == i);
    } else {
        front_holds(ranks, r, n - 1, i);
        let k = choose|k: int| 0 <= k < rest.len() && #[trigger] rest[k] == i;
        assert(front[k] == i);
    }
}

proof fn fronts_agree<R: Reals>(
    reals: &R,
    pop: Seq<Seq<Scalar>>,
    ranks: Seq<usize>,
    n: nat,
    a: Seq<Scalar>,
    b: Seq<Scalar>,
)
    requires
        reals::is_steady(reals),
        ranks.len() == pop.len(),
        nsga2::fronts_crowd(reals, pop, ranks, n, a),
        nsga2::fronts_crowd(reals, pop, ranks, n, b),
    ensures
        a == b,
        a.len() == pop.len(),
    decreases n,
{
    if n > 0 {
        let r = (n - 1) as usize;
        let x = choose|x: Seq<Scalar>|
            nsga2::fronts_crowd(reals, pop, ranks, (n - 1) as nat, x)
                && #[trigger] nsga2::front_crowds(reals, pop, ranks, r, x, a);
        let y = choose|y: Seq<Scalar>|
            nsga2::fronts_crowd(reals, pop, ranks, (n - 1) as nat, y)
                && #[trigger] nsga2::front_crowds(reals, pop, ranks, r, y, b);
        fronts_agree(reals, pop, ranks, (n - 1) as nat, x, y);
        let front = nsga2::front_positions(ranks, r, pop.len() as int);
        if front.len() > 2 {
            axes_agree(reals, pop, front, pop[0].len(), x, a, b);
        }
        assert forall|i: int| 0 <= i < a.len() implies a[i] == b[i] by {
            if ranks[i] == r {
                front_holds(ranks, r, pop.len() as int, i);
                let k = choose|k: int| 0 <= k < front.len() && #[trigger] front[k] == i;
                assert(front[k] == i);
            }
        }
        assert(a =~= b);
    } else {
        assert forall|i: int| 0 <= i < a.len() implies a[i] == b[i] by {
            assert(a[i].pattern() == 0 && b[i].pattern() == 0);
        }
        assert(a =~= b);
    }
}

/// Ranks that nobody has change nothing.
proof fn empty_fronts_add_nothing<R: Reals>(
    reals: &R,
    pop: Seq<Seq<Scalar>>,
    ranks: Seq<usize>,
    m: nat,
    n: nat,
    dist: Seq<Scalar>,
)
    requires
        ranks.len() == pop.len(),
        m <= n <= usize::MAX + 1,
        forall|i: int| 0 <= i < ranks.len() ==> (#[trigger] ranks[i]) < m,
        nsga2::fronts_crowd(reals, pop, ranks, n, dist),
    ensures
        nsga2::fronts_crowd(reals, pop, ranks, m, dist),
    decreases n,
{
    if m < n {
        let r = (n - 1) as usize;
        let before = choose|before: Seq<Scalar>|
            nsga2::fronts_crowd(reals, pop, ranks, (n - 1) as nat, before)
                && #[trigger] nsga2::front_crowds(reals, pop, ranks, r, before, dist);
        crowding_keeps_length(reals, pop, ranks, (n - 1) as nat, before);
        assert forall|i: int| 0 <= i < dist.len() implies dist[i] == before[i] by {
            assert(ranks[i] < m);
        }
        assert(dist =~= before);
        empty_fronts_add_nothing(reals, pop, ranks, m, (n - 1) as nat, dist);
    }
}

proof fn crowding_keeps_length<R: Reals>(
    reals: &R,
    pop: Seq<Seq<Scalar>>,
    ranks: Seq<usize>,
    n: nat,
    dist: Seq<Scalar>,
)
    requires
        nsga2::fronts_crowd(reals, pop, ranks, n, dist),
    ensures
        dist.len() == pop.len(),
    decreases n,
{
    if n > 0 {
        let before = choose|before: Seq<Scalar>|
            nsga2::fronts_crowd(reals, pop, ranks, (n - 1) as nat, before)
                && #[trigger] nsga2::front_crowds(
                reals,
                pop,
                ranks,
                (n - 1) as usize,
                before,
                dist,
            );
        crowding_keeps_length(reals, pop, ranks, (n - 1) as nat, before);
    }
}

proof fn crowding_agrees<R: Reals>(
    reals: &R,
    pop: Seq<Seq<Scalar>>,
    ranks: Seq<usize>,
    a: Seq<Scalar>,
    b: Seq<Scalar>,
)
    requires
        reals::is_steady(reals),
        pop.len() > 0,
        ranks.len() == pop.len(),
        nsga2::is_crowding(reals, pop, ranks, a),
        nsga2::is_crowding(reals, pop, ranks, b),
    ensures
        a == b,
{
    let m = choose|m: nat|
        m <= usize::MAX + 1 && (forall|i: int| 0 <= i < ranks.len() ==> (#[trigger] ranks[i]) < m)
            && #[trigger] nsga2::fronts_crowd(reals, pop, ranks, m, a);
    let n = choose|n: nat|
        n <= usize::MAX + 1 && (forall|i: int| 0 <= i < ranks.len() ==> (#[trigger] ranks[i]) < n)
            && #[trigger] nsga2::fronts_crowd(reals, pop, ranks, n, b);
    if m <= n {
        empty_fronts_add_nothing(reals, pop, ranks, m, n, b);
        fronts_agree(reals, pop, ranks, m, a, b);
    } else {
        empty_fronts_add_nothing(reals, pop, ranks, n, m, a);
        fronts_agree(reals, pop, ranks, n, a, b);
    }
}

proof fn archives_agree(model: Nsga2Model, h: HistoryModel, g: HistoryModel)
    requires
        replay::alike(h, g),
    ensures
        models::pick(h, nsga2::candidate(model.objectives)) == models::pick(
            g,
            nsga2::candidate(model.objectives),
        ),
{
    let aims = model.objectives;
    let f = nsga2::candidate(aims);
    assert forall|i: int| 0 <= i < h.len() implies f(#[trigger] h[i]) == f(g[i]) by {
        let (s, t) = (h[i], g[i]);
        assert(replay::same_face(s, t));
        assert(nsga2::objective_vec(aims, s) =~= nsga2::objective_vec(aims, t));
        assert forall|k: int| 0 <= k < aims.len() implies s.value((#[trigger] aims[k]).0)
            == t.value(aims[k].0) by {}
        if nsga2::scores_all(aims, s) {
            assert(nsga2::scores_all(aims, t));
        }
        if nsga2::scores_all(aims, t) {
            assert(nsga2::scores_all(aims, s));
        }
    }
    replay::picks_agree(h, g, f);
}

proof fn broods_agree<R: Reals>(
    reals: &R,
    space: SpaceModel,
    model: Nsga2Model,
    h: HistoryModel,
    p: Assignment,
    g: HistoryModel,
    q: Assignment,
)
    requires
        reals::is_steady(reals),
        replay::alike(h, g),
        !model.starting(h),
        model.breeds(reals, space, h, p),
        model.breeds(reals, space, g, q),
    ensures
        p == q,
{
    archives_agree(model, h, g);
    let pop = model.archive(h);
    assert(model.archive(g) == pop);
    let (a, b, c) = choose|a: Seq<usize>, b: Seq<Scalar>, c: Seq<usize>| #[trigger]
        nsga2::is_selection(pop, a, b, c) && nsga2::is_crowding(reals, pop, a, b) && model.bears(
            reals,
            space,
            model.couple(h, a, b, c),
            p,
        );
    let (x, y, z) = choose|x: Seq<usize>, y: Seq<Scalar>, z: Seq<usize>| #[trigger]
        nsga2::is_selection(pop, x, y, z) && nsga2::is_crowding(reals, pop, x, y) && model.bears(
            reals,
            space,
            model.couple(g, x, y, z),
            q,
        );
    assert forall|i: int| 0 <= i < a.len() implies a[i] == x[i] by {
        nsga2::law_layering_is_unique(pop, a, x, i);
    }
    assert(a =~= x);
    crowding_agrees(reals, pop, a, b, y);
    let (parents, rng) = model.couple(h, a, b, c);
    let (chance, scale) = (model.mutation_prob, model.mutation_scale);
    let r = choose|r: TrialRng| #[trigger]
        evolution::is_child(reals, space, parents, chance, scale, rng, p, r);
    let s = choose|s: TrialRng| #[trigger]
        evolution::is_child(reals, space, parents, chance, scale, rng, q, s);
    steady::children_agree(reals, space, parents, chance, scale, rng, p, r, q, s);
}

/// Multi-objective search replays: a suggestion is determined by the seed and by what the history
/// shows.
pub proof fn law_multi_objective_search_replays<P, R: Reals>(rig: Rig<P, R>)
    requires
        reals::is_steady(&rig.reals),
    ensures
        replay::sampler_replays(rig, |a: Nsga2Sampler, b: Nsga2Sampler| a == b),
{
    let same = |a: Nsga2Sampler, b: Nsga2Sampler| a == b;
    assert forall|
        s: Nsga2Sampler,
        h: HistoryModel,
        p: Assignment,
        a: Nsga2Sampler,
        t: Nsga2Sampler,
        g: HistoryModel,
        q: Assignment,
        b: Nsga2Sampler,
    |
        same(s, t) && replay::alike(h, g) && #[trigger] s.proposes(
            &rig.reals,
            rig.space,
            h,
            p,
            a,
        ) && #[trigger] t.proposes(&rig.reals, rig.space, g, q, b) implies p == q && same(a, b) by {
        archives_agree(s@, h, g);
        if s@.starting(h) {
            replay::suggestions_agree(&rig.reals, rig.space, s@.seed, h.len() as int, p, q);
        } else {
            broods_agree(&rig.reals, rig.space, s@, h, p, g, q);
        }
    }
}

/// During its startup, multi-objective search suggests what random sampling from the same seed
/// suggests. Where the space needs floating-point arithmetic, that has to be steady.
pub proof fn law_startup_matches_random_sampling<R: Reals>(
    s: Nsga2Sampler,
    random: RandomSampler,
    reals: &R,
    space: SpaceModel,
    history: HistoryModel,
    p: Assignment,
    after: Nsga2Sampler,
    q: Assignment,
    unchanged: RandomSampler,
)
    requires
        reals::is_steady(reals) || sampler::discrete_space(space),
        s@.starting(history),
        random.seed() == s@.seed,
        s.proposes(reals, space, history, p, after),
        random.proposes(reals, space, history, q, unchanged),
    ensures
        p == q,
{
    replay::suggestions_agree(reals, space, s@.seed, history.len() as int, p, q);
}

} // verus!
