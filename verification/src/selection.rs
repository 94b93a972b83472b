//! Laws of selection: whom the samplers that breed let have children.

use vstd::prelude::*;
use crate::evolution::{EvolutionarySampler, Parents};
use crate::metrics::Direction;
use crate::nsga2::Nsga2Sampler;
use crate::param::{Assignment, ParamModel};
use crate::reals::Reals;
use crate::rng::TrialRng;
use crate::sampler::Sampler;
use crate::scalar::Scalar;
use crate::space::SpaceModel;
use crate::trial::{HistoryModel, TrialModel, TrialState};
#[allow(unused_imports)]
use crate::evolution;
#[allow(unused_imports)]
use crate::models;
#[allow(unused_imports)]
use crate::nsga2;
#[allow(unused_imports)]
use crate::order;
#[allow(unused_imports)]
use crate::sampler;
#[allow(unused_imports)]
use crate::space;

verus! {

/// Whether whole-numbered draws stay below their bound.
pub open spec fn draws_stay_below() -> bool {
    forall|rng: TrialRng, n: u64| n > 0 ==> #[trigger] rng.pick(n) < n
}

/// The first `k` whole-numbered draws below `bound`, and the position behind them.
pub open spec fn first_draws(bound: u64, rng: TrialRng, k: nat) -> (Seq<int>, TrialRng)
    decreases k,
{
    if k == 0 {
        (Seq::empty(), rng)
    } else {
        let (drawn, r) = first_draws(bound, rng, (k - 1) as nat);
        (drawn.push(r.pick(bound) as int), r.past_pick(bound))
    }
}

/// A tournament of `n` rounds is won by the best of the first `n` draws: the winner is one of them,
/// and none of them is better.
pub proof fn law_tournaments_are_won_by_the_best_drawn(
    d: Direction,
    values: Seq<Scalar>,
    rng: TrialRng,
    n: nat,
)
    requires
        draws_stay_below(),
        order::all_numbers(values),
        0 < values.len() <= u64::MAX,
        n > 0,
    ensures
        ({
            let (drawn, behind) = first_draws(values.len() as u64, rng, n);
            let (winner, after) = evolution::tournament(d, values, rng, n);
            &&& after == behind
            &&& drawn.len() == n
            &&& winner matches Some(w) && drawn.contains(w) && 0 <= w < values.len() && forall|i: int|
                0 <= i < n ==> !d.better(values[#[trigger] drawn[i]], values[w])
        }),
    decreases n,
{
    let bound = values.len() as u64;
    let (drawn, behind) = first_draws(bound, rng, n);
    let (winner, after) = evolution::tournament(d, values, rng, n);
    let (head, before) = first_draws(bound, rng, (n - 1) as nat);
    let x = before.pick(bound) as int;
    draws_have_length(bound, rng, n);
    draws_have_length(bound, rng, (n - 1) as nat);
    assert(drawn =~= head.push(x));
    assert(drawn[n - 1] == x);
    assert(0 <= x < values.len());
    assert(!values[x].nan());
    if n > 1 {
        law_tournaments_are_won_by_the_best_drawn(d, values, rng, (n - 1) as nat);
        let best = evolution::tournament(d, values, rng, (n - 1) as nat).0->0;
        let k = head.index_of(best);
        assert(drawn[k] == best);
        assert(!values[best].nan());
        assert forall|i: int| 0 <= i < n implies !d.better(
            values[#[trigger] drawn[i]],
            values[winner->0],
        ) by {
            if i < n - 1 {
                assert(drawn[i] == head[i]);
                assert(!d.better(values[head[i]], values[best]));
                draws_are_places(bound, rng, (n - 1) as nat, i);
                assert(!values[head[i]].nan());
            }
        }
    } else {
        assert(evolution::tournament(d, values, rng, 0).0 is None);
    }
}

proof fn draws_are_places(bound: u64, rng: TrialRng, k: nat, i: int)
    requires
        draws_stay_below(),
        bound > 0,
        0 <= i < k,
    ensures
        first_draws(bound, rng, k).0.len() == k,
        0 <= first_draws(bound, rng, k).0[i] < bound,
    decreases k,
{
    let (head, r) = first_draws(bound, rng, (k - 1) as nat);
    draws_have_length(bound, rng, (k - 1) as nat);
    if i < k - 1 {
        draws_are_places(bound, rng, (k - 1) as nat, i);
    }
    assert(r.pick(bound) < bound);
}

proof fn draws_have_length(bound: u64, rng: TrialRng, k: nat)
    ensures
        first_draws(bound, rng, k).0.len() == k,
    decreases k,
{
    if k > 0 {
        draws_have_length(bound, rng, (k - 1) as nat);
    }
}

/// Whether a trial is complete with a finite value of the objective.
pub open spec fn is_fit(objective: Seq<char>) -> spec_fn(TrialModel) -> bool {
    |t: TrialModel| t.state == TrialState::Complete && has_finite(t, objective)
}

/// The complete trials of a history that have a finite value of the objective, in order.
pub open spec fn fit_trials(history: HistoryModel, objective: Seq<char>) -> HistoryModel {
    history.filter(is_fit(objective))
}

/// The pool that samplers select from is the fit trials, each with its value.
pub proof fn pool_is_fit_trials(history: HistoryModel, objective: Seq<char>)
    ensures
        models::pick(history, evolution::fit_parent(objective)).len() == fit_trials(
            history,
            objective,
        ).len(),
        forall|k: int|
            0 <= k < fit_trials(history, objective).len() ==> models::pick(
                history,
                evolution::fit_parent(objective),
            )[k] == (
                (#[trigger] fit_trials(history, objective)[k]).params,
                fit_trials(history, objective)[k].final_metrics->0[objective],
            ) && is_fit(objective)(fit_trials(history, objective)[k]),
    decreases history.len(),
{
    reveal(Seq::filter);
    if history.len() > 0 {
        pool_is_fit_trials(history.drop_last(), objective);
        let t = history.last();
        assert(is_fit(objective)(t) <==> evolution::fit_parent(objective)(t) is Some);
    }
}

/// Single-objective evolution breeds from the best drawn: each parent is the best of as many fit
/// trials, drawn one after the other on the stream of the suggestion, as a tournament has rounds.
pub proof fn law_evolution_breeds_from_the_best_drawn<R: Reals>(
    s: EvolutionarySampler,
    reals: &R,
    space: SpaceModel,
    history: HistoryModel,
    p: Assignment,
    after: EvolutionarySampler,
)
    requires
        draws_stay_below(),
        s.proposes(reals, space, history, p, after),
        s.rounds() >= 1,
        fit_trials(history, s.aims_at()).len() >= s.population() >= 1,
        history.len() <= usize::MAX,
    ensures
        ({
            let fit = fit_trials(history, s.aims_at());
            let start = TrialRng {
                seed: sampler::suggestion_seed(s.seeded(), history.len() as int),
                word: 0,
            };
            let (one, mid) = first_draws(fit.len() as u64, start, s.rounds() as nat);
            let (two, end) = first_draws(fit.len() as u64, mid, s.rounds() as nat);
            exists|a: int, b: int, last: TrialRng|
                one.contains(a) && two.contains(b) && (forall|i: int|
                    0 <= i < one.len() ==> !s.prefers().better(
                        fit[#[trigger] one[i]].final_metrics->0[s.aims_at()],
                        fit[a].final_metrics->0[s.aims_at()],
                    )) && (forall|i: int|
                    0 <= i < two.len() ==> !s.prefers().better(
                        fit[#[trigger] two[i]].final_metrics->0[s.aims_at()],
                        fit[b].final_metrics->0[s.aims_at()],
                    )) && #[trigger] evolution::is_child(
                    reals,
                    space,
                    (Parents { heads: fit[a].params, tails: fit[b].params, share: true }),
                    s.mutates(),
                    s.spreads(),
                    end,
                    p,
                    last,
                )
        }),
{
    let name = s.aims_at();
    let fit = fit_trials(history, name);
    let pool = models::pick(history, evolution::fit_parent(name));
    let values = evolution::scores(pool);
    pool_is_fit_trials(history, name);
    models::pick_is_no_longer(history, evolution::fit_parent(name));
    assert forall|i: int| 0 <= i < values.len() implies !(#[trigger] values[i]).nan() && values[i]
        == fit[i].final_metrics->0[name] by {
        assert(pool[i] == (fit[i].params, fit[i].final_metrics->0[name]));
        assert(is_fit(name)(fit[i]));
    }
    let start = TrialRng {
        seed: sampler::suggestion_seed(s.seeded(), history.len() as int),
        word: 0,
    };
    let n = s.rounds() as nat;
    let d = s.prefers();
    law_tournaments_are_won_by_the_best_drawn(d, values, start, n);
    let (one, mid) = first_draws(fit.len() as u64, start, n);
    law_tournaments_are_won_by_the_best_drawn(d, values, mid, n);
    let (two, end) = first_draws(fit.len() as u64, mid, n);
    let a = evolution::tournament(d, values, start, n).0->0;
    let b = evolution::tournament(d, values, mid, n).0->0;
    assert(pool[a].0 == fit[a].params && pool[b].0 == fit[b].params);
    let last = choose|last: TrialRng| #[trigger]
        evolution::is_child(
            reals,
            space,
            s.couple(history).0,
            s.mutates(),
            s.spreads(),
            s.couple(history).1,
            p,
            last,
        );
    assert(s.couple(history).0 == (Parents {
        heads: fit[a].params,
        tails: fit[b].params,
        share: true,
    }));
    assert forall|i: int| 0 <= i < one.len() implies !d.better(
        fit[#[trigger] one[i]].final_metrics->0[name],
        fit[a].final_metrics->0[name],
    ) by {
        draws_are_places(fit.len() as u64, start, n, i);
        assert(values[one[i]] == fit[one[i]].final_metrics->0[name]);
    }
    assert forall|i: int| 0 <= i < two.len() implies !d.better(
        fit[#[trigger] two[i]].final_metrics->0[name],
        fit[b].final_metrics->0[name],
    ) by {
        draws_are_places(fit.len() as u64, mid, n, i);
        assert(values[two[i]] == fit[two[i]].final_metrics->0[name]);
    }
    assert(evolution::is_child(
        reals,
        space,
        (Parents { heads: fit[a].params, tails: fit[b].params, share: true }),
        s.mutates(),
        s.spreads(),
        end,
        p,
        last,
    ));
}

/// Whether a trial is complete with a finite value of every objective.
pub open spec fn qualifies(objectives: Seq<(Seq<char>, Direction)>) -> spec_fn(TrialModel) -> bool {
    |t: TrialModel| t.state == TrialState::Complete && has_every(objectives, t)
}

/// Whether a trial ended with a finite value of every objective.
pub open spec fn has_every(objectives: Seq<(Seq<char>, Direction)>, t: TrialModel) -> bool {
    forall|i: int| 0 <= i < objectives.len() ==> has_finite(t, (#[trigger] objectives[i]).0)
}

/// Whether a trial ended with a finite value of an objective.
pub open spec fn has_finite(t: TrialModel, objective: Seq<char>) -> bool {
    t.final_metrics matches Some(m) && m.contains_key(objective) && m[objective].finite()
}

/// Whether a trial is nowhere worse than another and somewhere better, by the directions of the
/// objectives.
pub open spec fn outdoes(
    objectives: Seq<(Seq<char>, Direction)>,
    t: TrialModel,
    u: TrialModel,
) -> bool {
    &&& forall|i: int|
        0 <= i < objectives.len() ==> !(#[trigger] objectives[i]).1.better(
            u.final_metrics->0[objectives[i].0],
            t.final_metrics->0[objectives[i].0],
        )
    &&& exists|i: int|
        0 <= i < objectives.len() && (#[trigger] objectives[i]).1.better(
            t.final_metrics->0[objectives[i].0],
            u.final_metrics->0[objectives[i].0],
        )
}

/// Whether a trial qualifies and outdoes `u`.
pub open spec fn outdoing(
    objectives: Seq<(Seq<char>, Direction)>,
    u: TrialModel,
) -> spec_fn(TrialModel) -> bool {
    |t: TrialModel| qualifies(objectives)(t) && outdoes(objectives, t, u)
}

/// Dominance of objective vectors is dominance by the objectives' directions.
pub proof fn law_lower_vectors_outdo(
    objectives: Seq<(Seq<char>, Direction)>,
    t: TrialModel,
    u: TrialModel,
)
    ensures
        nsga2::below_all(
            nsga2::objective_vec(objectives, t),
            nsga2::objective_vec(objectives, u),
        ) <==> outdoes(objectives, t, u),
{
    let (a, b) = (nsga2::objective_vec(objectives, t), nsga2::objective_vec(objectives, u));
    assert forall|i: int| 0 <= i < objectives.len() implies (a[i].less(b[i])
        <==> #[trigger] objectives[i].1.better(
        t.final_metrics->0[objectives[i].0],
        u.final_metrics->0[objectives[i].0],
    )) && (b[i].less(a[i]) <==> objectives[i].1.better(
        u.final_metrics->0[objectives[i].0],
        t.final_metrics->0[objectives[i].0],
    )) by {
        let (x, y) = (t.final_metrics->0[objectives[i].0], u.final_metrics->0[objectives[i].0]);
        nsga2::law_better_is_lower(objectives[i].1, x, y);
        nsga2::law_better_is_lower(objectives[i].1, y, x);
    }
    if nsga2::below_all(a, b) {
        let i = choose|i: int| 0 <= i < a.len() && (#[trigger] a[i]).less(b[i]);
        assert(objectives[i].1.better(
            t.final_metrics->0[objectives[i].0],
            u.final_metrics->0[objectives[i].0],
        ));
        assert forall|i: int| 0 <= i < objectives.len() implies !(
        #[trigger] objectives[i]).1.better(
            u.final_metrics->0[objectives[i].0],
            t.final_metrics->0[objectives[i].0],
        ) by {
            assert(!b[i].less(a[i]));
        }
    }
    if outdoes(objectives, t, u) {
        let i = choose|i: int|
            0 <= i < objectives.len() && (#[trigger] objectives[i]).1.better(
                t.final_metrics->0[objectives[i].0],
                u.final_metrics->0[objectives[i].0],
            );
        assert(a[i].less(b[i]));
        assert forall|i: int| 0 <= i < a.len() implies !b[i].less(#[trigger] a[i]) by {
            assert(!objectives[i].1.better(
                u.final_metrics->0[objectives[i].0],
                t.final_metrics->0[objectives[i].0],
            ));
        }
    }
}

/// Survivors are listed front by front.
pub proof fn law_survivors_go_front_by_front(
    ranks: Seq<usize>,
    crowd: Seq<Scalar>,
    n: nat,
    a: int,
    b: int,
)
    requires
        n <= ranks.len() <= usize::MAX,
        0 <= a < b < nsga2::survivors(ranks, crowd, n).len(),
    ensures
        ranks[nsga2::survivors(ranks, crowd, n)[a] as int] <= ranks[nsga2::survivors(
            ranks,
            crowd,
            n,
        )[b] as int],
    decreases n,
{
    let m = (n - 1) as nat;
    let list = nsga2::survivors(ranks, crowd, m);
    let at = nsga2::survival_place(ranks, crowd, list, n - 1, list.len());
    place_separates(ranks, crowd, list, n - 1, list.len());
    let all = list.insert(at as int, (n - 1) as usize);
    let x = if a < at {
        a
    } else {
        a - 1
    };
    let y = if b < at {
        b
    } else {
        b - 1
    };
    if a == at {
        assert(all[b] == list[y]);
    } else if b == at {
        assert(all[a] == list[x]);
        if x < at - 1 {
            law_survivors_go_front_by_front(ranks, crowd, m, x, at - 1);
        }
    } else {
        law_survivors_go_front_by_front(ranks, crowd, m, x, y);
        assert(all[a] == list[x] && all[b] == list[y]);
    }
}

proof fn place_separates(
    ranks: Seq<usize>,
    crowd: Seq<Scalar>,
    list: Seq<usize>,
    i: int,
    at: nat,
)
    requires
        at <= list.len(),
    ensures
        ({
            let r = nsga2::survival_place(ranks, crowd, list, i, at);
            &&& r <= at
            &&& r > 0 ==> ranks[list[r - 1] as int] <= ranks[i]
            &&& forall|k: int| r <= k < at ==> ranks[i] <= ranks[#[trigger] list[k] as int]
        }),
    decreases at,
{
    if at > 0 && nsga2::outlives(ranks, crowd, i, list[at - 1] as int) {
        place_separates(ranks, crowd, list, i, (at - 1) as nat);
    }
}

proof fn pool_is_qualified_trials(history: HistoryModel, objectives: Seq<(Seq<char>, Direction)>)
    ensures
        ({
            let pool = models::pick(history, nsga2::candidate(objectives));
            let fit = history.filter(qualifies(objectives));
            &&& pool.len() == fit.len()
            &&& forall|k: int|
                0 <= k < fit.len() ==> pool[k] == (
                    (#[trigger] fit[k]).params,
                    nsga2::objective_vec(objectives, fit[k]),
                ) && qualifies(objectives)(fit[k])
        }),
    decreases history.len(),
{
    reveal(Seq::filter);
    if history.len() > 0 {
        pool_is_qualified_trials(history.drop_last(), objectives);
        let t = history.last();
        qualified_is_candidate(objectives, t);
    }
}

proof fn qualified_is_candidate(objectives: Seq<(Seq<char>, Direction)>, t: TrialModel)
    ensures
        qualifies(objectives)(t) <==> nsga2::candidate(objectives)(t) is Some,
{
    if t.state == TrialState::Complete {
        if nsga2::scores_all(objectives, t) {
            assert forall|i: int| 0 <= i < objectives.len() implies has_finite(
                t,
                (#[trigger] objectives[i]).0,
            ) by {
                assert(t.value(objectives[i].0) matches Some(v) && v.finite());
            }
            assert(has_every(objectives, t));
        }
        if qualifies(objectives)(t) {
            assert forall|i: int| 0 <= i < objectives.len() implies (t.value(
                (#[trigger] objectives[i]).0,
            ) matches Some(v) && v.finite()) by {
                assert(has_finite(t, objectives[i].0));
            }
            assert(nsga2::scores_all(objectives, t));
        }
    }
}

/// The elite is as small as it was set to be: an individual of it is dominated by fewer than that.
proof fn elite_is_rarely_dominated(
    pop: Seq<Seq<Scalar>>,
    ranks: Seq<usize>,
    crowd: Seq<Scalar>,
    fittest: Seq<usize>,
    x: int,
)
    requires
        nsga2::is_selection(pop, ranks, crowd, fittest),
        pop.len() <= usize::MAX,
        0 <= x < fittest.len(),
    ensures
        ({
            let w = fittest[x] as int;
            let above = Set::new(
                |y: int| 0 <= y < pop.len() && nsga2::below_all(pop[y], pop[w]),
            );
            above.finite() && above.len() <= x
        }),
{
    let w = fittest[x] as int;
    let above = Set::new(|y: int| 0 <= y < pop.len() && nsga2::below_all(pop[y], pop[w]));
    let front = fittest.take(x).map_values(|v: usize| v as int);
    assert(above.subset_of(front.to_set())) by {
        assert forall|y: int| above.contains(y) implies front.to_set().contains(y) by {
            order::permutation_is_onto(fittest, ranks.len() as int, y);
            let z = choose|z: int| 0 <= z < fittest.len() && #[trigger] fittest[z] == y;
            assert(fittest[x] < ranks.len());
            assert(ranks[y] < ranks[w]);
            if z > x {
                law_survivors_go_front_by_front(ranks, crowd, ranks.len(), x, z);
            }
            assert(z < x);
            assert(front[z] == y);
        }
    }
    front.lemma_cardinality_of_set();
    vstd::set_lib::lemma_len_subset(above, front.to_set());
}

/// Multi-objective search breeds from the elite: past the start-up, both parents are complete trials
/// with every objective, and each is outdone, by the objectives' own directions, by fewer trials
/// than the elite has members.
pub proof fn law_multi_objective_search_breeds_from_the_elite<R: Reals>(
    s: Nsga2Sampler,
    reals: &R,
    space: SpaceModel,
    history: HistoryModel,
    p: Assignment,
    after: Nsga2Sampler,
)
    requires
        draws_stay_below(),
        s.proposes(reals, space, history, p, after),
        history.filter(qualifies(s@.objectives)).len() >= s@.n_startup,
        history.filter(qualifies(s@.objectives)).len() > 0,
        history.len() <= usize::MAX,
    ensures
        ({
            let fit = history.filter(qualifies(s@.objectives));
            let keep = if s@.population_size < 2 {
                2
            } else {
                s@.population_size as int
            };
            exists|a: int, b: int, from: TrialRng, to: TrialRng|
                0 <= a < fit.len() && 0 <= b < fit.len() && history.filter(
                    outdoing(s@.objectives, fit[a]),
                ).len() < keep && history.filter(outdoing(s@.objectives, fit[b])).len() < keep
                    && #[trigger] evolution::is_child(
                    reals,
                    space,
                    (Parents { heads: fit[a].params, tails: fit[b].params, share: false }),
                    s@.mutation_prob,
                    s@.mutation_scale,
                    from,
                    p,
                    to,
                )
        }),
{
    let objs = s@.objectives;
    let fit = history.filter(qualifies(objs));
    let pool = models::pick(history, nsga2::candidate(objs));
    let pop = s@.archive(history);
    pool_is_qualified_trials(history, objs);
    models::pick_is_no_longer(history, nsga2::candidate(objs));
    let (ranks, crowd, fittest) = choose|
        ranks: Seq<usize>,
        crowd: Seq<Scalar>,
        fittest: Seq<usize>,
    | #[trigger]
        nsga2::is_selection(pop, ranks, crowd, fittest) && nsga2::is_crowding(
            reals,
            pop,
            ranks,
            crowd,
        ) && s@.bears(reals, space, s@.couple(history, ranks, crowd, fittest), p);
    let elite = s@.elite(fittest);
    let n = elite.len() as u64;
    let start = TrialRng {
        seed: sampler::suggestion_seed(s@.seed, history.len() as int),
        word: 0,
    };
    let first = nsga2::duel(elite, ranks, crowd, start);
    let second = nsga2::duel(elite, ranks, crowd, first.1);
    let x = elite_place(elite, ranks, crowd, start);
    let y = elite_place(elite, ranks, crowd, first.1);
    parent_is_rarely_outdone(s, history, ranks, crowd, fittest, x);
    parent_is_rarely_outdone(s, history, ranks, crowd, fittest, y);
    let (a, b) = (first.0 as int, second.0 as int);
    assert(elite[x] == fittest[x] && elite[y] == fittest[y]);
    assert(fittest[x] < ranks.len() && fittest[y] < ranks.len());
    assert(pool[a].0 == fit[a].params && pool[b].0 == fit[b].params);
    let (parents, from) = s@.couple(history, ranks, crowd, fittest);
    let to = choose|to: TrialRng| #[trigger]
        evolution::is_child(
            reals,
            space,
            parents,
            s@.mutation_prob,
            s@.mutation_scale,
            from,
            p,
            to,
        );
    assert(parents == (Parents { heads: fit[a].params, tails: fit[b].params, share: false }));
    assert(evolution::is_child(
        reals,
        space,
        (Parents { heads: fit[a].params, tails: fit[b].params, share: false }),
        s@.mutation_prob,
        s@.mutation_scale,
        from,
        p,
        to,
    ));
}

proof fn elite_place(
    elite: Seq<usize>,
    ranks: Seq<usize>,
    crowd: Seq<Scalar>,
    rng: TrialRng,
) -> (x: int)
    requires
        draws_stay_below(),
        0 < elite.len() <= u64::MAX,
    ensures
        0 <= x < elite.len(),
        elite[x] == nsga2::duel(elite, ranks, crowd, rng).0,
{
    let n = elite.len() as u64;
    assert(rng.pick(n) < n);
    assert(rng.past_pick(n).pick(n) < n);
    nsga2::law_tournaments_prefer_low_fronts_and_room(elite, ranks, crowd, rng);
    if nsga2::duel(elite, ranks, crowd, rng).0 == elite[rng.pick(n) as int] {
        rng.pick(n) as int
    } else {
        rng.past_pick(n).pick(n) as int
    }
}

proof fn parent_is_rarely_outdone(
    s: Nsga2Sampler,
    history: HistoryModel,
    ranks: Seq<usize>,
    crowd: Seq<Scalar>,
    fittest: Seq<usize>,
    x: int,
)
    requires
        nsga2::is_selection(s@.archive(history), ranks, crowd, fittest),
        history.len() <= usize::MAX,
        0 <= x < s@.elite(fittest).len(),
    ensures
        history.filter(
            outdoing(
                s@.objectives,
                history.filter(qualifies(s@.objectives))[fittest[x] as int],
            ),
        ).len() <= x,
{
    let objs = s@.objectives;
    let fit = history.filter(qualifies(objs));
    let pop = s@.archive(history);
    let w = fittest[x] as int;
    let u = fit[w];
    pool_is_qualified_trials(history, objs);
    models::pick_is_no_longer(history, nsga2::candidate(objs));
    elite_is_rarely_dominated(pop, ranks, crowd, fittest, x);
    let above = Set::new(|y: int| 0 <= y < pop.len() && nsga2::below_all(pop[y], pop[w]));
    let ahead = |t: TrialModel| outdoes(objs, t, u);
    assert(fittest[x] < ranks.len());
    models::tested_as_many_as_places(fit, ahead);
    let places = Set::new(|i: int| 0 <= i < fit.len() && ahead(fit[i]));
    assert(places =~= above) by {
        assert forall|y: int| 0 <= y < fit.len() implies (ahead(fit[y]) <==> nsga2::below_all(
            #[trigger] pop[y],
            pop[w],
        )) by {
            law_lower_vectors_outdo(objs, fit[y], u);
        }
    }
    filtered_twice(history, qualifies(objs), ahead, outdoing(objs, u));
}

proof fn filtered_twice(
    items: HistoryModel,
    one: spec_fn(TrialModel) -> bool,
    two: spec_fn(TrialModel) -> bool,
    both: spec_fn(TrialModel) -> bool,
)
    requires
        forall|t: TrialModel| #[trigger] both(t) <==> one(t) && two(t),
    ensures
        items.filter(one).filter(two).len() == items.filter(both).len(),
    decreases items.len(),
{
    reveal(Seq::filter);
    if items.len() > 0 {
        let head = items.drop_last();
        filtered_twice(head, one, two, both);
        assert(both(items.last()) <==> one(items.last()) && two(items.last()));
        if one(items.last()) {
            assert(items.filter(one).drop_last() =~= head.filter(one));
        }
    }
}

/// Evolution waits for a population: as long as fewer complete trials have a finite value, it
/// samples at random.
pub proof fn law_evolution_waits_for_a_population<R: Reals>(
    s: EvolutionarySampler,
    reals: &R,
    space: SpaceModel,
    history: HistoryModel,
    p: Assignment,
    after: EvolutionarySampler,
)
    requires
        s.proposes(reals, space, history, p, after),
        fit_trials(history, s.aims_at()).len() < s.population(),
    ensures
        crate::sampler::suggests_at_random(reals, space, s.seeded(), history.len() as int, p),
{
    pool_is_fit_trials(history, s.aims_at());
}

proof fn genes_stay_put<R: Reals>(
    reals: &R,
    defs: SpaceModel,
    parents: Parents,
    p: Scalar,
    scale: Scalar,
    rng: TrialRng,
    stages: Seq<(Assignment, TrialRng)>,
    i: int,
    k: int,
)
    requires
        evolution::is_growth(reals, defs, parents, p, scale, rng, stages),
        space::space_ordered(defs),
        stages.len() == defs.len() + 1,
        0 <= i < defs.len(),
        0 <= k <= defs.len(),
    ensures
        k <= i ==> !stages[k].0.contains_key(defs[i].name),
        k > i ==> stages[k].0.contains_key(defs[i].name) == stages[i + 1].0.contains_key(
            defs[i].name,
        ) && stages[k].0[defs[i].name] == stages[i + 1].0[defs[i].name],
    decreases k,
{
    if k > 0 && k != i + 1 {
        genes_stay_put(reals, defs, parents, p, scale, rng, stages, i, k - 1);
        let def = defs[k - 1];
        assert(evolution::grows(reals, def, parents, p, scale, stages[k - 1], stages[k - 1 + 1]));
        assert(space::def_ordered(defs, k - 1));
        assert(space::def_ordered(defs, i));
        if def.name == defs[i].name {
            if k - 1 < i {
                assert(space::declared_before(defs, i, defs[i].name));
            } else {
                assert(space::declared_before(defs, k - 1, def.name));
            }
        }
    }
}

/// What a child takes for `name` by the fall of a coin: from the parent on that side if it has it,
/// or else from the other one if they share.
pub open spec fn taken_by(parents: Parents, name: Seq<char>, heads: bool) -> Option<ParamModel> {
    if heads && parents.heads.contains_key(name) {
        Some(parents.heads[name])
    } else if !heads && parents.tails.contains_key(name) {
        Some(parents.tails[name])
    } else if parents.share && parents.tails.contains_key(name) {
        Some(parents.tails[name])
    } else if parents.share && parents.heads.contains_key(name) {
        Some(parents.heads[name])
    } else {
        None
    }
}

/// A coin chooses the parent of each value: heads takes it from the one, tails from the other. A
/// parent that lacks it is helped out by the other where they share, and otherwise the value is
/// drawn afresh. What is taken so is then mutated or not.
pub proof fn law_a_coin_chooses_the_parent<R: Reals>(
    reals: &R,
    defs: SpaceModel,
    parents: Parents,
    p: Scalar,
    scale: Scalar,
    rng: TrialRng,
    child: Assignment,
    after: TrialRng,
    i: int,
)
    requires
        evolution::is_child(reals, defs, parents, p, scale, rng, child, after),
        space::space_ordered(defs),
        0 <= i < defs.len(),
        child.contains_key(defs[i].name),
    ensures
        exists|at: TrialRng, then: TrialRng| #[trigger]
            evolution::is_gene(
                reals,
                defs[i].dist,
                taken_by(parents, defs[i].name, at.flip()),
                p,
                scale,
                at.past_flip(),
                child[defs[i].name],
                then,
            ),
{
    let stages = choose|stages: Seq<(Assignment, TrialRng)>| #[trigger]
        evolution::is_growth(reals, defs, parents, p, scale, rng, stages) && stages.len()
            == defs.len() + 1 && stages.last() == (child, after);
    genes_stay_put(reals, defs, parents, p, scale, rng, stages, i, defs.len() as int);
    genes_stay_put(reals, defs, parents, p, scale, rng, stages, i, i);
    assert(evolution::grows(reals, defs[i], parents, p, scale, stages[i], stages[i + 1]));
    let (at, then) = (stages[i].1, stages[i + 1].1);
    assert(evolution::is_gene(
        reals,
        defs[i].dist,
        taken_by(parents, defs[i].name, at.flip()),
        p,
        scale,
        at.past_flip(),
        child[defs[i].name],
        then,
    ));
}

} // verus!
