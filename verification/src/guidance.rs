//! Laws of guidance: what the good trials of a history make the model propose.

use vstd::prelude::*;
use crate::distribution::DistModel;
use crate::param::{Assignment, ParamModel};
use crate::parzen::Parzen;
use crate::reals::Reals;
use crate::rng::TrialRng;
use crate::sampler::Sampler;
use crate::scalar::Scalar;
use crate::space::SpaceModel;
use crate::tpe::{TpeModel, TpeSampler};
use crate::trial::{HistoryModel, TrialModel};
#[allow(unused_imports)]
use crate::axis;
#[allow(unused_imports)]
use crate::distribution;
#[allow(unused_imports)]
use crate::evolution;
#[allow(unused_imports)]
use crate::models;
#[allow(unused_imports)]
use crate::order;
#[allow(unused_imports)]
use crate::parzen;
#[allow(unused_imports)]
use crate::reals;
#[allow(unused_imports)]
use crate::selection;
#[allow(unused_imports)]
use crate::space;
#[allow(unused_imports)]
use crate::tpe;

verus! {

/// Whether a trial had a value for `name`.
pub open spec fn had(name: Seq<char>) -> spec_fn(TrialModel) -> bool {
    |t: TrialModel| t.params.contains_key(name)
}

/// Whether a trial had the value `v` for `name`.
pub open spec fn had_value(name: Seq<char>, v: ParamModel) -> spec_fn(TrialModel) -> bool {
    |t: TrialModel| t.params.contains_key(name) && t.params[name] == v
}

/// How many trials had the value `v` for `name`, with a prior count of one.
pub open spec fn smoothed(trials: HistoryModel, name: Seq<char>, v: ParamModel) -> u128 {
    (1 + trials.filter(had_value(name, v)).len()) as u128
}

/// The smoothed counts of some values, one for each.
pub open spec fn tally(
    trials: HistoryModel,
    name: Seq<char>,
    values: Seq<ParamModel>,
) -> Seq<u128> {
    Seq::new(values.len(), |k: int| smoothed(trials, name, values[k]))
}

/// The two booleans: no, then yes.
pub open spec fn no_and_yes() -> Seq<ParamModel> {
    seq![ParamModel::Bool(false), ParamModel::Bool(true)]
}

/// The values that choices stand for.
pub open spec fn as_values(choices: Seq<Seq<char>>) -> Seq<ParamModel> {
    choices.map_values(|c: Seq<char>| ParamModel::Categorical(c))
}

/// Whether the complete trials with a finite value fall into good and bad ones: none of the bad is
/// better than one of the good, there is one of each at least, and as many are good as the share
/// of all says, up to twenty-five.
pub open spec fn falls_into<R: Reals>(
    reals: &R,
    s: TpeModel,
    history: HistoryModel,
    good: HistoryModel,
    bad: HistoryModel,
) -> bool {
    let fit = selection::fit_trials(history, s.objective);
    &&& exists|p: Seq<usize>| #[trigger]
        order::is_permutation(p, fit.len() as int) && good + bad == Seq::new(
            fit.len(),
            |i: int| fit[p[i] as int],
        )
    &&& forall|g: int, b: int|
        0 <= g < good.len() && 0 <= b < bad.len() ==> !s.direction.better(
            (#[trigger] bad[b]).final_metrics->0[s.objective],
            (#[trigger] good[g]).final_metrics->0[s.objective],
        )
    &&& 1 <= good.len() <= 25
    &&& 1 <= bad.len()
    &&& exists|raw: usize| #[trigger]
        reals::is_share(reals, s.gamma, fit.len() as usize, raw) && (raw < 1 ==> good.len() == 1)
            && (1 <= raw < fit.len() && raw <= 25 ==> good.len() == raw) && (raw >= 25
            && fit.len() > 25 ==> good.len() == 25) && (raw >= fit.len() && fit.len() <= 25
            ==> bad.len() == 1)
}

proof fn split_falls_apart<R: Reals>(
    reals: &R,
    s: TpeModel,
    history: HistoryModel,
    ga: Seq<Assignment>,
    ba: Seq<Assignment>,
) -> (r: (HistoryModel, HistoryModel))
    requires
        tpe::is_split(reals, history, s.objective, s.direction, s.gamma, ga, ba),
        selection::fit_trials(history, s.objective).len() >= 2,
    ensures
        falls_into(reals, s, history, r.0, r.1),
        ga == r.0.map_values(|t: TrialModel| t.params),
        ba == r.1.map_values(|t: TrialModel| t.params),
{
    let fit = selection::fit_trials(history, s.objective);
    let pool = models::pick(history, evolution::fit_parent(s.objective));
    let values = pool.map_values(|p: (Assignment, Scalar)| p.1);
    selection::pool_is_fit_trials(history, s.objective);
    let p = choose|p: Seq<usize>| #[trigger]
        order::is_ranking(values, s.direction, p) && ga + ba == Seq::new(
            p.len(),
            |i: int| pool[p[i] as int].0,
        );
    let all = Seq::new(p.len(), |i: int| pool[p[i] as int].0);
    assert((ga + ba).len() == all.len());
    let good = Seq::new(ga.len(), |i: int| fit[p[i] as int]);
    let bad = Seq::new(ba.len(), |i: int| fit[p[ga.len() + i] as int]);
    assert forall|i: int| 0 <= i < p.len() implies (#[trigger] p[i]) < fit.len() && pool[p[i] as int]
        == (fit[p[i] as int].params, fit[p[i] as int].final_metrics->0[s.objective])
        && !values[p[i] as int].nan() by {
        assert(pool[p[i] as int].0 == fit[p[i] as int].params);
        assert(selection::is_fit(s.objective)(fit[p[i] as int]));
    }
    assert forall|i: int| 0 <= i < ga.len() implies ga[i] == (#[trigger] good[i]).params by {
        assert((ga + ba)[i] == all[i]);
        assert(p[i] < fit.len());
    }
    assert forall|i: int| 0 <= i < ba.len() implies ba[i] == (#[trigger] bad[i]).params by {
        assert((ga + ba)[ga.len() + i] == all[ga.len() + i]);
        assert(p[ga.len() + i] < fit.len());
    }
    assert(ga =~= good.map_values(|t: TrialModel| t.params));
    assert(ba =~= bad.map_values(|t: TrialModel| t.params));
    assert(good + bad =~= Seq::new(fit.len(), |i: int| fit[p[i] as int]));
    assert(order::is_permutation(p, fit.len() as int));
    assert(order::all_numbers(values)) by {
        assert forall|i: int| 0 <= i < values.len() implies !(#[trigger] values[i]).nan() by {
            assert(pool[i] == (fit[i].params, fit[i].final_metrics->0[s.objective]));
            assert(selection::is_fit(s.objective)(fit[i]));
        }
    }
    assert forall|g: int, b: int|
        0 <= g < good.len() && 0 <= b < bad.len() implies !s.direction.better(
        (#[trigger] bad[b]).final_metrics->0[s.objective],
        (#[trigger] good[g]).final_metrics->0[s.objective],
    ) by {
        order::law_rankings_put_the_better_first(values, s.direction, p, g, ga.len() + b);
        assert(p[g] < fit.len() && p[ga.len() + b] < fit.len());
    }
    let raw = choose|raw: usize| #[trigger]
        reals::is_share(reals, s.gamma, pool.len() as usize, raw) && ga.len() == tpe::good_count(
            raw as int,
            pool.len() as int,
        );
    assert(reals::is_share(reals, s.gamma, fit.len() as usize, raw));
    (good, bad)
}

proof fn laplace_counts(trials: HistoryModel, name: Seq<char>, v: ParamModel)
    ensures
        tpe::laplace(
            models::pick(trials.map_values(|t: TrialModel| t.params), tpe::observed(name)),
            v,
        ) == 1 + trials.filter(had_value(name, v)).len(),
        models::pick(trials.map_values(|t: TrialModel| t.params), tpe::observed(name)).len()
            == trials.filter(had(name)).len(),
    decreases trials.len(),
{
    reveal(Seq::filter);
    let all = trials.map_values(|t: TrialModel| t.params);
    if trials.len() > 0 {
        let head = trials.drop_last();
        laplace_counts(head, name, v);
        assert(all.drop_last() =~= head.map_values(|t: TrialModel| t.params));
        let obs = models::pick(all, tpe::observed(name));
        if all.last().contains_key(name) {
            assert(obs.drop_last() =~= models::pick(all.drop_last(), tpe::observed(name)));
        }
    }
}

proof fn names_stay_put<R: Reals>(
    reals: &R,
    defs: SpaceModel,
    good: Seq<Assignment>,
    bad: Seq<Assignment>,
    n: usize,
    enough: int,
    rng: TrialRng,
    stages: Seq<(Assignment, TrialRng)>,
    i: int,
    k: int,
)
    requires
        tpe::is_proposal(reals, defs, good, bad, n, enough, rng, stages),
        space::space_ordered(defs),
        stages.len() == defs.len() + 1,
        0 <= i < defs.len(),
        0 <= k <= defs.len(),
    ensures
        k <= i ==> !stages[k].0.contains_key(defs[i].name),
        k > i ==> stages[k].0.contains_key(defs[i].name) == stages[i + 1].0.contains_key(
            defs[i].name,
        ) && stages[k].0[defs[i].name] == stages[i + 1].0[defs[i].name],
    decreases k,
{
    if k > 0 && k != i + 1 {
        names_stay_put(reals, defs, good, bad, n, enough, rng, stages, i, k - 1);
        let def = defs[k - 1];
        assert(tpe::proposes(
            reals,
            def,
            good,
            bad,
            n,
            enough,
            stages[k - 1],
            stages[k - 1 + 1],
        ));
        assert(space::def_ordered(defs, k - 1));
        assert(space::def_ordered(defs, i));
        if def.name == defs[i].name {
            if k - 1 < i {
                assert(space::declared_before(defs, i, defs[i].name));
            } else {
                assert(space::declared_before(defs, k - 1, def.name));
            }
        }
    }
}

proof fn proposed_in_its_turn<R: Reals>(
    reals: &R,
    defs: SpaceModel,
    good: Seq<Assignment>,
    bad: Seq<Assignment>,
    n: usize,
    enough: int,
    rng: TrialRng,
    stages: Seq<(Assignment, TrialRng)>,
    i: int,
)
    requires
        tpe::is_proposal(reals, defs, good, bad, n, enough, rng, stages),
        space::space_ordered(defs),
        stages.len() == defs.len() + 1,
        0 <= i < defs.len(),
        stages.last().0.contains_key(defs[i].name),
    ensures
        defs[i].active(stages[i].0),
        stages.last().0[defs[i].name] == stages[i + 1].0[defs[i].name],
        tpe::proposes(reals, defs[i], good, bad, n, enough, stages[i], stages[i + 1]),
{
    names_stay_put(reals, defs, good, bad, n, enough, rng, stages, i, defs.len() as int);
    names_stay_put(reals, defs, good, bad, n, enough, rng, stages, i, i);
    assert(tpe::proposes(reals, defs[i], good, bad, n, enough, stages[i], stages[i + 1]));
}

/// What the model makes of a parameter in its turn: the good and the bad trials of the history, and
/// where on the stream.
proof fn modeled_in_its_turn<R: Reals>(
    s: TpeSampler,
    reals: &R,
    space: SpaceModel,
    history: HistoryModel,
    p: Assignment,
    after: TpeSampler,
    i: int,
) -> (r: (HistoryModel, HistoryModel, TrialRng, TrialRng))
    requires
        s.proposes(reals, space, history, p, after),
        space::space_ordered(space),
        0 <= i < space.len(),
        p.contains_key(space[i].name),
        selection::fit_trials(history, s@.objective).len() >= s@.n_startup_trials,
        selection::fit_trials(history, s@.objective).len() >= 2,
    ensures
        falls_into(reals, s@, history, r.0, r.1),
        ({
            let (good, bad) = (
                models::pick(
                    r.0.map_values(|t: TrialModel| t.params),
                    tpe::observed(space[i].name),
                ),
                models::pick(
                    r.1.map_values(|t: TrialModel| t.params),
                    tpe::observed(space[i].name),
                ),
            );
            if r.0.filter(had(space[i].name)).len() < s@.min_branch_obs {
                distribution::is_draw(reals, space[i].dist, r.2, p[space[i].name], r.3)
            } else {
                tpe::is_modeled(
                    reals,
                    space[i].dist,
                    good,
                    bad,
                    s@.n_candidates,
                    r.2,
                    p[space[i].name],
                    r.3,
                )
            }
        }),
{
    selection::pool_is_fit_trials(history, s@.objective);
    let (ga, ba) = choose|ga: Seq<Assignment>, ba: Seq<Assignment>| #[trigger]
        tpe::is_split(
            reals,
            history,
            s@.objective,
            s@.direction,
            s@.gamma,
            ga,
            ba,
        ) && s@.proposed(reals, space, history, ga, ba, p);
    let (good, bad) = split_falls_apart(reals, s@, history, ga, ba);
    let start = TrialRng {
        seed: crate::sampler::suggestion_seed(s@.seed, history.len() as int),
        word: 0,
    };
    let stages = choose|stages: Seq<(Assignment, TrialRng)>| #[trigger]
        tpe::is_proposal(
            reals,
            space,
            ga,
            ba,
            s@.n_candidates,
            s@.min_branch_obs as int,
            start,
            stages,
        ) && stages.len() == space.len() + 1 && stages.last().0 == p;
    proposed_in_its_turn(
        reals,
        space,
        ga,
        ba,
        s@.n_candidates,
        s@.min_branch_obs as int,
        start,
        stages,
        i,
    );
    laplace_counts(good, space[i].name, ParamModel::Bool(true));
    (good, bad, stages[i].1, stages[i + 1].1)
}

/// A boolean that the model proposes has the higher ratio of frequencies: among the good trials of
/// the history against the bad ones, by how often each value was had, the ratio of the proposed one
/// is not below that of the other. Where too few good trials had the parameter, a coin decides.
pub proof fn law_modeled_booleans_have_the_higher_ratio<R: Reals>(
    s: TpeSampler,
    reals: &R,
    space: SpaceModel,
    history: HistoryModel,
    p: Assignment,
    after: TpeSampler,
    i: int,
)
    requires
        s.proposes(reals, space, history, p, after),
        space::space_ordered(space),
        0 <= i < space.len(),
        space[i].dist == DistModel::Bool,
        p.contains_key(space[i].name),
        selection::fit_trials(history, s@.objective).len() >= s@.n_startup_trials,
        selection::fit_trials(history, s@.objective).len() >= 2,
    ensures
        exists|good: HistoryModel, bad: HistoryModel|
            #[trigger] falls_into(reals, s@, history, good, bad) && if good.filter(
                had(space[i].name),
            ).len() < s@.min_branch_obs {
                exists|rng: TrialRng| p[space[i].name] == ParamModel::Bool(#[trigger] rng.flip())
            } else {
                exists|scores: Seq<Scalar>| #[trigger]
                    reals::are_log_ratios(
                        reals,
                        tally(good, space[i].name, no_and_yes()),
                        tally(bad, space[i].name, no_and_yes()),
                        scores,
                    ) && (scores.len() == 2 && order::all_numbers(scores) ==> (
                    p[space[i].name] matches ParamModel::Bool(v) && if v {
                        !scores[1].less(scores[0])
                    } else {
                        !scores[0].less(scores[1])
                    }))
            },
{
    let name = space[i].name;
    let (good, bad, from, to) = modeled_in_its_turn(s, reals, space, history, p, after, i);
    if good.filter(had(name)).len() >= s@.min_branch_obs {
        let (go, bo) = (
            models::pick(good.map_values(|t: TrialModel| t.params), tpe::observed(name)),
            models::pick(bad.map_values(|t: TrialModel| t.params), tpe::observed(name)),
        );
        let best = choose|best: int| #[trigger]
            tpe::is_best_choice(reals, tpe::bool_counts(go), tpe::bool_counts(bo), best)
                && p[name] == ParamModel::Bool(best == 1);
        let scores = choose|scores: Seq<Scalar>| #[trigger]
            reals::are_log_ratios(reals, tpe::bool_counts(go), tpe::bool_counts(bo), scores)
                && best == if scores.len() == tpe::bool_counts(go).len() {
                tpe::highest(scores)
            } else {
                0
            };
        laplace_counts(good, name, ParamModel::Bool(false));
        laplace_counts(good, name, ParamModel::Bool(true));
        laplace_counts(bad, name, ParamModel::Bool(false));
        laplace_counts(bad, name, ParamModel::Bool(true));
        assert(tpe::bool_counts(go) =~= tally(good, name, no_and_yes()));
        assert(tpe::bool_counts(bo) =~= tally(bad, name, no_and_yes()));
        if scores.len() == 2 && order::all_numbers(scores) {
            tpe::law_highest_is_first_maximum(scores, 0);
            tpe::law_highest_is_first_maximum(scores, 1);
        }
    } else {
        assert(p[name] == ParamModel::Bool(from.flip()));
    }
    assert(falls_into(reals, s@, history, good, bad));
}

/// Whether a value that is commoner among the good and rarer among the bad has the higher ratio.
pub open spec fn ratios_follow_counts<R: Reals>(reals: &R) -> bool {
    forall|g: Seq<u128>, b: Seq<u128>, scores: Seq<Scalar>| #[trigger]
        reals::are_log_ratios(reals, g, b, scores) && g.len() == b.len() ==> scores.len() == g.len()
            && order::all_numbers(scores) && forall|i: int, j: int|
            0 <= i < g.len() && 0 <= j < g.len() && g[i] < g[j] && b[j] < b[i] ==> (
            #[trigger] scores[i]).less(#[trigger] scores[j])
}

/// The model proposes the boolean that the good trials had: where enough good trials had the
/// parameter, one value was commoner among them than the other and rarer among the bad, and ratios
/// follow counts, that value is proposed.
pub proof fn law_modeled_booleans_follow_the_good_trials<R: Reals>(
    s: TpeSampler,
    reals: &R,
    space: SpaceModel,
    history: HistoryModel,
    p: Assignment,
    after: TpeSampler,
    i: int,
)
    requires
        s.proposes(reals, space, history, p, after),
        space::space_ordered(space),
        0 <= i < space.len(),
        space[i].dist == DistModel::Bool,
        p.contains_key(space[i].name),
        selection::fit_trials(history, s@.objective).len() >= s@.n_startup_trials,
        selection::fit_trials(history, s@.objective).len() >= 2,
        ratios_follow_counts(reals),
        history.len() <= usize::MAX,
    ensures
        exists|good: HistoryModel, bad: HistoryModel| #[trigger]
            falls_into(reals, s@, history, good, bad) && (good.filter(had(space[i].name)).len()
                >= s@.min_branch_obs ==> forall|v: bool|
                #![trigger had_value(space[i].name, ParamModel::Bool(v))]
                good.filter(had_value(space[i].name, ParamModel::Bool(v))).len() > good.filter(
                    had_value(space[i].name, ParamModel::Bool(!v)),
                ).len() && bad.filter(had_value(space[i].name, ParamModel::Bool(v))).len()
                    < bad.filter(had_value(space[i].name, ParamModel::Bool(!v))).len()
                    ==> p[space[i].name] == ParamModel::Bool(v)),
{
    law_modeled_booleans_have_the_higher_ratio(s, reals, space, history, p, after, i);
    let name = space[i].name;
    let (good, bad) = choose|good: HistoryModel, bad: HistoryModel|
        #[trigger] falls_into(reals, s@, history, good, bad) && if good.filter(had(name)).len()
            < s@.min_branch_obs {
            exists|rng: TrialRng| p[name] == ParamModel::Bool(#[trigger] rng.flip())
        } else {
            exists|scores: Seq<Scalar>| #[trigger]
                reals::are_log_ratios(
                    reals,
                    tally(good, name, no_and_yes()),
                    tally(bad, name, no_and_yes()),
                    scores,
                ) && (scores.len() == 2 && order::all_numbers(scores) ==> (
                p[name] matches ParamModel::Bool(v) && if v {
                    !scores[1].less(scores[0])
                } else {
                    !scores[0].less(scores[1])
                }))
        };
    let fit = selection::fit_trials(history, s@.objective);
    history.lemma_filter_len(selection::is_fit(s@.objective));
    assert((good + bad).len() == fit.len());
    assert forall|v: bool| #![trigger had_value(name, ParamModel::Bool(v))]
        good.filter(had(name)).len() >= s@.min_branch_obs && good.filter(
            had_value(name, ParamModel::Bool(v)),
        ).len() > good.filter(had_value(name, ParamModel::Bool(!v))).len() && bad.filter(
            had_value(name, ParamModel::Bool(v)),
        ).len() < bad.filter(had_value(name, ParamModel::Bool(!v))).len() implies p[name]
        == ParamModel::Bool(v) by {
        good.lemma_filter_len(had_value(name, ParamModel::Bool(true)));
        good.lemma_filter_len(had_value(name, ParamModel::Bool(false)));
        bad.lemma_filter_len(had_value(name, ParamModel::Bool(true)));
        bad.lemma_filter_len(had_value(name, ParamModel::Bool(false)));
        let (g, b) = (
            tally(good, name, no_and_yes()),
            tally(bad, name, no_and_yes()),
        );
        let scores = choose|scores: Seq<Scalar>| #[trigger]
            reals::are_log_ratios(reals, g, b, scores) && (scores.len() == 2 && order::all_numbers(
                scores,
            ) ==> (p[name] matches ParamModel::Bool(v) && if v {
                !scores[1].less(scores[0])
            } else {
                !scores[0].less(scores[1])
            }));
        if v {
            assert(g[0] < g[1] && b[1] < b[0]);
            assert(scores[0].less(scores[1]));
        } else {
            assert(g[1] < g[0] && b[0] < b[1]);
            assert(scores[1].less(scores[0]));
        }
    }
}

/// A choice that the model proposes has the highest ratio of frequencies: among the good trials
/// against the bad ones, by how often each choice was had, no choice has a ratio above that of the
/// proposed one. Where too few good trials had the parameter, it is drawn from all choices.
pub proof fn law_modeled_choices_have_the_highest_ratio<R: Reals>(
    s: TpeSampler,
    reals: &R,
    space: SpaceModel,
    history: HistoryModel,
    p: Assignment,
    after: TpeSampler,
    i: int,
    choices: Seq<Seq<char>>,
)
    requires
        s.proposes(reals, space, history, p, after),
        space::space_ordered(space),
        0 <= i < space.len(),
        space[i].dist == (DistModel::Categorical { choices }),
        choices.no_duplicates(),
        choices.len() > 0,
        p.contains_key(space[i].name),
        selection::fit_trials(history, s@.objective).len() >= s@.n_startup_trials,
        selection::fit_trials(history, s@.objective).len() >= 2,
    ensures
        exists|good: HistoryModel, bad: HistoryModel|
            #[trigger] falls_into(reals, s@, history, good, bad) && if good.filter(
                had(space[i].name),
            ).len() < s@.min_branch_obs {
                exists|rng: TrialRng|
                    p[space[i].name] == ParamModel::Categorical(
                        choices[#[trigger] rng.pick(choices.len() as u64) as int],
                    )
            } else {
                exists|scores: Seq<Scalar>, best: int| #[trigger]
                    reals::are_log_ratios(
                        reals,
                        tally(good, space[i].name, as_values(choices)),
                        tally(bad, space[i].name, as_values(choices)),
                        scores,
                    ) && p[space[i].name] == ParamModel::Categorical(#[trigger] choices[best]) && (
                    scores.len() == choices.len() && order::all_numbers(scores) ==> forall|k: int|
                        0 <= k < scores.len() ==> !scores[best].less(#[trigger] scores[k]))
            },
{
    let name = space[i].name;
    let (good, bad, from, to) = modeled_in_its_turn(s, reals, space, history, p, after, i);
    if good.filter(had(name)).len() >= s@.min_branch_obs {
        let (go, bo) = (
            models::pick(good.map_values(|t: TrialModel| t.params), tpe::observed(name)),
            models::pick(bad.map_values(|t: TrialModel| t.params), tpe::observed(name)),
        );
        let best = choose|best: int| #[trigger]
            tpe::is_best_choice(
                reals,
                tpe::counts_of(go, choices),
                tpe::counts_of(bo, choices),
                best,
            ) && p[name] == ParamModel::Categorical(choices[best]);
        let scores = choose|scores: Seq<Scalar>| #[trigger]
            reals::are_log_ratios(
                reals,
                tpe::counts_of(go, choices),
                tpe::counts_of(bo, choices),
                scores,
            ) && best == if scores.len() == tpe::counts_of(go, choices).len() {
                tpe::highest(scores)
            } else {
                0
            };
        assert forall|k: int| 0 <= k < choices.len() implies tpe::choice_count(go, choices, k) == 1
            + good.filter(had_value(name, ParamModel::Categorical(choices[k]))).len()
            && #[trigger] tpe::choice_count(bo, choices, k) == 1 + bad.filter(
            had_value(name, ParamModel::Categorical(choices[k])),
        ).len() by {
            assert(!tpe::repeated(choices, k));
            laplace_counts(good, name, ParamModel::Categorical(choices[k]));
            laplace_counts(bad, name, ParamModel::Categorical(choices[k]));
        }
        assert(tpe::counts_of(go, choices) =~= tally(good, name, as_values(choices))) by {
            assert forall|k: int| 0 <= k < choices.len() implies tpe::counts_of(go, choices)[k]
                == smoothed(good, name, ParamModel::Categorical(choices[k])) by {
                assert(tpe::choice_count(bo, choices, k) >= 1);
            }
        }
        assert(tpe::counts_of(bo, choices) =~= tally(bad, name, as_values(choices))) by {
            assert forall|k: int| 0 <= k < choices.len() implies tpe::counts_of(bo, choices)[k]
                == smoothed(bad, name, ParamModel::Categorical(choices[k])) by {
                assert(tpe::choice_count(bo, choices, k) >= 1);
            }
        }
        if scores.len() == choices.len() && order::all_numbers(scores) {
            assert forall|k: int| 0 <= k < scores.len() implies !scores[best].less(
                #[trigger] scores[k],
            ) by {
                tpe::law_highest_is_first_maximum(scores, k);
            }
        }
        assert(p[name] == ParamModel::Categorical(choices[best]));
    } else {
        assert(p[name] == ParamModel::Categorical(
            choices[from.pick(choices.len() as u64) as int],
        ));
    }
    assert(falls_into(reals, s@, history, good, bad));
}

/// Whether a number lies at `t` on an axis, plain or logarithmic.
pub open spec fn lies_there<R: Reals>(reals: &R, x: Scalar, log: bool, t: Scalar) -> bool {
    if log {
        !x.nan() && !x.less(Scalar { bits: 0x01a5_6e1f_c2f8_f359 }) ==> reals::is_ln(
            reals,
            x,
            t,
        )
    } else {
        t == x
    }
}

/// Whether an integer lies at `t` on an axis, plain or logarithmic.
pub open spec fn int_lies_there<R: Reals>(reals: &R, v: i64, log: bool, t: Scalar) -> bool {
    exists|x: Scalar| #[trigger] reals::is_of_int(reals, v, x) && lies_there(reals, x, log, t)
}

/// Whether a mixture has its components where trials had their values, on an axis from `lo` to
/// `hi`, and one more in the middle.
pub open spec fn centers_on<R: Reals>(
    reals: &R,
    m: Parzen,
    trials: HistoryModel,
    name: Seq<char>,
    log: bool,
    whole: bool,
    lo: Scalar,
    hi: Scalar,
) -> bool {
    let seen = trials.filter(had(name));
    &&& m.lo == lo
    &&& m.hi == hi
    &&& m.mus@.len() == seen.len() + 1
    &&& m.sigmas@.len() == seen.len() + 1
    &&& reals::is_midpoint(reals, lo, hi, m.mus@[seen.len() as int])
    &&& forall|k: int|
        0 <= k < seen.len() ==> match (#[trigger] seen[k]).params[name] {
            ParamModel::Float(x) => !whole ==> lies_there(reals, x, log, m.mus@[k]),
            ParamModel::Int(v) => whole ==> int_lies_there(reals, v, log, m.mus@[k]),
            _ => true,
        }
}

/// Whether logarithms add up to `r`: by their greatest, unless nothing is likely at all.
pub open spec fn adds_up<R: Reals>(reals: &R, terms: Seq<Scalar>, r: Scalar) -> bool {
    ||| r.pattern() == parzen::LOWEST && forall|j: int|
        0 <= j < terms.len() ==> !r.less(#[trigger] terms[j])
    ||| exists|top: Scalar|
        terms.contains(top) && !top.nan() && (forall|j: int|
            0 <= j < terms.len() ==> !top.less(#[trigger] terms[j])) && #[trigger] reals::is_log_sum(
            reals,
            terms,
            top,
            r,
        )
}

/// Whether `r` is how likely a mixture makes `x`: the densities of all its components, equally
/// weighted, added up.
pub open spec fn is_likelihood<R: Reals>(reals: &R, m: Parzen, x: Scalar, r: Scalar) -> bool {
    exists|terms: Seq<Scalar>|
        terms.len() == m.mus@.len() && (forall|i: int|
            0 <= i < terms.len() ==> reals::is_log_density(
                reals,
                x,
                m.mus@[i],
                m.sigmas@[i],
                m.mus@.len() as usize,
                #[trigger] terms[i],
            )) && #[trigger] adds_up(reals, terms, r)
}

/// Whether draws from component `c` of a mixture came one after the other, each where the one
/// before stopped, and all but the last missed the axis.
pub open spec fn are_tries<R: Reals>(
    reals: &R,
    m: Parzen,
    c: int,
    draws: Seq<Scalar>,
    stops: Seq<TrialRng>,
) -> bool {
    &&& draws.len() > 0
    &&& stops.len() == draws.len() + 1
    &&& forall|i: int|
        0 <= i < draws.len() ==> reals::is_normal(
            reals,
            m.mus@[c],
            m.sigmas@[c],
            stops[i],
            #[trigger] draws[i],
            stops[i + 1],
        )
    &&& forall|i: int|
        0 <= i < draws.len() - 1 ==> (#[trigger] draws[i]).nan() || draws[i].less(m.lo)
            || m.hi.less(draws[i]) || m.lo.nan() || m.hi.nan()
}

/// Whether `x` was drawn from component `c` of a mixture: the first of up to fifty normal draws
/// that lies on the axis, or else one more, moved to the nearer end of it.
pub open spec fn is_drawn<R: Reals>(
    reals: &R,
    m: Parzen,
    c: int,
    from: TrialRng,
    x: Scalar,
    after: TrialRng,
) -> bool {
    exists|draws: Seq<Scalar>, stops: Seq<TrialRng>| #[trigger]
        are_tries(reals, m, c, draws, stops) && stops[0] == from && stops.last() == after
            && draws.len() <= 51 && (m.holds(draws.last()) ==> x == draws.last()) && (!m.holds(
            draws.last(),
        ) ==> draws.len() == 51) && (draws.last().less(m.lo) ==> x == m.lo) && (m.hi.less(
            draws.last(),
        ) && !draws.last().less(m.lo) ==> x == m.hi)
}

/// Whether `score` is by how much likelier the good mixture makes `x` than the bad one.
pub open spec fn is_scored<R: Reals>(
    reals: &R,
    good: Parzen,
    bad: Parzen,
    x: Scalar,
    score: Scalar,
) -> bool {
    exists|l: Scalar, g: Scalar| #[trigger]
        is_likelihood(reals, good, x, l) && #[trigger] is_likelihood(reals, bad, x, g)
            && reals::is_difference(reals, l, g, score)
}

/// Whether candidates were drawn from the good mixture, each from a component picked from all, and
/// each scored by how much likelier the good mixture makes it than the bad one.
pub open spec fn are_scored<R: Reals>(
    reals: &R,
    good: Parzen,
    bad: Parzen,
    found: Seq<(Scalar, Scalar)>,
    stops: Seq<TrialRng>,
) -> bool {
    &&& stops.len() == found.len() + 1
    &&& forall|k: int|
        0 <= k < found.len() ==> is_drawn(
            reals,
            good,
            stops[k].pick(good.mus@.len() as u64) as int,
            stops[k].past_pick(good.mus@.len() as u64),
            (#[trigger] found[k]).0,
            stops[k + 1],
        )
    &&& forall|k: int|
        0 <= k < found.len() ==> is_scored(
            reals,
            good,
            bad,
            (#[trigger] found[k]).0,
            found[k].1,
        )
}

proof fn tries_are_draws<R: Reals>(
    reals: &R,
    m: Parzen,
    k: int,
    tries: nat,
    rng: TrialRng,
    x: Scalar,
    after: TrialRng,
) -> (r: (Seq<Scalar>, Seq<TrialRng>))
    requires
        m.is_tried(reals, k, tries, rng, x, after),
    ensures
        are_tries(reals, m, k, r.0, r.1),
        r.1[0] == rng,
        r.1.last() == after,
        r.0.len() <= tries + 1,
        m.holds(r.0.last()) ==> x == r.0.last(),
        !m.holds(r.0.last()) ==> r.0.len() == tries + 1,
        r.0.last().less(m.lo) ==> x == m.lo,
        m.hi.less(r.0.last()) && !r.0.last().less(m.lo) ==> x == m.hi,
    decreases tries,
{
    let (d, then) = choose|d: Scalar, then: TrialRng| #[trigger]
        reals::is_normal(reals, m.mus@[k], m.sigmas@[k], rng, d, then) && if tries == 0 {
            let moved = d.clamped(m.lo, m.hi);
            after == then && x == if moved.nan() {
                m.lo
            } else {
                moved
            }
        } else if m.holds(d) {
            x == d && after == then
        } else {
            m.is_tried(reals, k, (tries - 1) as nat, then, x, after)
        };
    if tries > 0 && !m.holds(d) {
        let (ds, at) = tries_are_draws(reals, m, k, (tries - 1) as nat, then, x, after);
        let draws = seq![d] + ds;
        let stops = seq![rng] + at;
        assert forall|i: int| 0 <= i < draws.len() implies reals::is_normal(
            reals,
            m.mus@[k],
            m.sigmas@[k],
            stops[i],
            #[trigger] draws[i],
            stops[i + 1],
        ) by {
            if i > 0 {
                assert(draws[i] == ds[i - 1] && stops[i] == at[i - 1] && stops[i + 1] == at[i]);
            } else {
                assert(stops[1] == at[0]);
            }
        }
        assert forall|i: int| 0 <= i < draws.len() - 1 implies (#[trigger] draws[i]).nan()
            || draws[i].less(m.lo) || m.hi.less(draws[i]) || m.lo.nan() || m.hi.nan() by {
            if i > 0 {
                assert(draws[i] == ds[i - 1]);
            }
        }
        assert(draws.last() == ds.last() && stops.last() == at.last());
        (draws, stops)
    } else {
        let (draws, stops) = (seq![d], seq![rng, after]);
        assert(draws[0] == d && stops[0] == rng && stops[1] == after);
        (draws, stops)
    }
}

proof fn densities_add_up<R: Reals>(reals: &R, m: Parzen, x: Scalar, r: Scalar)
    requires
        m.has_log_density(reals, x, r),
    ensures
        is_likelihood(reals, m, x, r),
{
    let (terms, top) = choose|terms: Seq<Scalar>, greatest: Scalar|
        terms.len() == m.mus@.len() && #[trigger] m.are_terms(reals, x, terms)
            && #[trigger] parzen::is_greatest(terms, greatest) && if greatest.pattern()
            == parzen::LOWEST {
            r == greatest
        } else {
            reals::is_log_sum(reals, terms, greatest, r)
        };
    assert(adds_up(reals, terms, r)) by {
        if top.pattern() != parzen::LOWEST {
            assert(terms.contains(top));
            assert(reals::is_log_sum(reals, terms, top, r));
        }
    }
}

proof fn candidates_are_scored<R: Reals>(
    reals: &R,
    good: Parzen,
    bad: Parzen,
    found: Seq<(Scalar, Scalar)>,
    from: TrialRng,
    to: TrialRng,
) -> (stops: Seq<TrialRng>)
    requires
        parzen::are_candidates(&good, &bad, reals, found, from, to),
    ensures
        are_scored(reals, good, bad, found, stops),
        stops[0] == from,
        stops.last() == to,
    decreases found.len(),
{
    if found.len() == 0 {
        seq![from]
    } else {
        let rest = found.drop_last();
        let (x, score) = found.last();
        let then = choose|then: TrialRng|
            parzen::are_candidates(&good, &bad, reals, rest, from, then)
                && #[trigger] good.is_sample(reals, then, x, to) && parzen::is_score(
                &good,
                &bad,
                reals,
                x,
                score,
            );
        let stops = candidates_are_scored(reals, good, bad, rest, from, then);
        let all = stops.push(to);
        let n = good.mus@.len() as u64;
        let (draws, at) = tries_are_draws(
            reals,
            good,
            then.pick(n) as int,
            parzen::TRIES as nat,
            then.past_pick(n),
            x,
            to,
        );
        assert(are_tries(reals, good, then.pick(n) as int, draws, at));
        assert(is_drawn(reals, good, then.pick(n) as int, then.past_pick(n), x, to));
        let (l, g) = choose|l: Scalar, g: Scalar| #[trigger]
            good.has_log_density(reals, x, l) && #[trigger] bad.has_log_density(reals, x, g)
                && reals::is_difference(reals, l, g, score);
        densities_add_up(reals, good, x, l);
        densities_add_up(reals, bad, x, g);
        assert(found[found.len() - 1] == (x, score));
        assert forall|k: int| 0 <= k < found.len() implies is_drawn(
            reals,
            good,
            all[k].pick(n) as int,
            all[k].past_pick(n),
            (#[trigger] found[k]).0,
            all[k + 1],
        ) by {
            if k < rest.len() {
                assert(rest[k] == found[k]);
            }
        }
        assert(is_scored(reals, good, bad, x, score));
        assert forall|k: int| 0 <= k < found.len() implies is_scored(
            reals,
            good,
            bad,
            (#[trigger] found[k]).0,
            found[k].1,
        ) by {
            if k < rest.len() {
                assert(rest[k] == found[k]);
            }
        }
        all
    }
}

proof fn observed_was_had(trials: HistoryModel, name: Seq<char>)
    ensures
        models::pick(trials.map_values(|t: TrialModel| t.params), tpe::observed(name))
            == trials.filter(had(name)).map_values(|t: TrialModel| t.params[name]),
    decreases trials.len(),
{
    reveal(Seq::filter);
    let all = trials.map_values(|t: TrialModel| t.params);
    let value = |t: TrialModel| t.params[name];
    let picked = models::pick(all, tpe::observed(name));
    if trials.len() > 0 {
        let head = trials.drop_last();
        observed_was_had(head, name);
        assert(all.drop_last() =~= head.map_values(|t: TrialModel| t.params));
        assert(picked =~= trials.filter(had(name)).map_values(value));
    } else {
        assert(picked =~= trials.filter(had(name)).map_values(value));
    }
}

proof fn mixture_centers<R: Reals>(
    reals: &R,
    m: Parzen,
    trials: HistoryModel,
    name: Seq<char>,
    log: bool,
    whole: bool,
    lo: Scalar,
    hi: Scalar,
)
    requires
        tpe::is_mixture(
            reals,
            m,
            models::pick(trials.map_values(|t: TrialModel| t.params), tpe::observed(name)),
            whole,
            log,
            lo,
            hi,
        ),
    ensures
        centers_on(reals, m, trials, name, log, whole, lo, hi),
{
    let obs = models::pick(trials.map_values(|t: TrialModel| t.params), tpe::observed(name));
    observed_was_had(trials, name);
    let seen = trials.filter(had(name));
    let ts = choose|ts: Seq<Scalar>| #[trigger]
        tpe::all_stand_at(reals, obs, whole, log, ts) && m.models(reals, ts) && m.lo == lo && m.hi
            == hi;
    assert(m.mus@.drop_last() == ts);
    assert forall|k: int| 0 <= k < seen.len() implies match (#[trigger] seen[k]).params[name] {
        ParamModel::Float(x) => !whole ==> lies_there(reals, x, log, m.mus@[k]),
        ParamModel::Int(v) => whole ==> int_lies_there(reals, v, log, m.mus@[k]),
        _ => true,
    } by {
        assert(obs[k] == seen[k].params[name]);
        assert(ts[k] == m.mus@.drop_last()[k]);
        if whole {
            assert(tpe::int_stands_at(reals, obs[k], log, ts[k]));
        }
    }
}

/// Whether `t` leads the candidates drawn from a mixture over the good trials: by how much likelier
/// they are there than in a mixture over the bad ones, no candidate is ahead of it.
pub open spec fn leads<R: Reals>(
    reals: &R,
    good: HistoryModel,
    bad: HistoryModel,
    name: Seq<char>,
    log: bool,
    whole: bool,
    lo: Scalar,
    hi: Scalar,
    n: usize,
    t: Scalar,
) -> bool {
    exists|
        l: Parzen,
        g: Parzen,
        found: Seq<(Scalar, Scalar)>,
        stops: Seq<TrialRng>,
        best: int,
    |
        centers_on(reals, l, good, name, log, whole, lo, hi) && centers_on(
            reals,
            g,
            bad,
            name,
            log,
            whole,
            lo,
            hi,
        ) && #[trigger] are_scored(reals, l, g, found, stops) && found.len() == (if n == 0 {
            1
        } else {
            n as nat
        }) && t == (#[trigger] found[best]).0 && ((forall|k: int|
            0 <= k < found.len() ==> !(#[trigger] found[k]).1.nan()) ==> forall|k: int|
            0 <= k < found.len() ==> !found[best].1.less((#[trigger] found[k]).1))
}

proof fn leading_leads<R: Reals>(
    reals: &R,
    good: HistoryModel,
    bad: HistoryModel,
    name: Seq<char>,
    log: bool,
    whole: bool,
    lo: Scalar,
    hi: Scalar,
    n: usize,
    rng: TrialRng,
    t: Scalar,
    after: TrialRng,
)
    requires
        tpe::is_leading(
            reals,
            models::pick(good.map_values(|t: TrialModel| t.params), tpe::observed(name)),
            models::pick(bad.map_values(|t: TrialModel| t.params), tpe::observed(name)),
            whole,
            log,
            lo,
            hi,
            n,
            rng,
            t,
            after,
        ),
    ensures
        leads(reals, good, bad, name, log, whole, lo, hi, n, t),
{
    let go = models::pick(good.map_values(|t: TrialModel| t.params), tpe::observed(name));
    let bo = models::pick(bad.map_values(|t: TrialModel| t.params), tpe::observed(name));
    let (l, g, found) = choose|l: Parzen, g: Parzen, found: Seq<(Scalar, Scalar)>|
        tpe::is_mixture(reals, l, go, whole, log, lo, hi) && tpe::is_mixture(
            reals,
            g,
            bo,
            whole,
            log,
            lo,
            hi,
        ) && found.len() == (if n < 1 {
            1
        } else {
            n as nat
        }) && #[trigger] parzen::are_candidates(&l, &g, reals, found, rng, after) && t
            == found[tpe::leader(tpe::scores_of(found))].0;
    mixture_centers(reals, l, good, name, log, whole, lo, hi);
    mixture_centers(reals, g, bad, name, log, whole, lo, hi);
    let stops = candidates_are_scored(reals, l, g, found, rng, after);
    let scores = tpe::scores_of(found);
    let best = tpe::leader(scores);
    if forall|k: int| 0 <= k < found.len() ==> !(#[trigger] found[k]).1.nan() {
        assert(order::all_numbers(scores)) by {
            assert forall|k: int| 0 <= k < scores.len() implies !(#[trigger] scores[k]).nan() by {
                assert(!found[k].1.nan());
            }
        }
        assert forall|k: int| 0 <= k < found.len() implies !found[best].1.less(
            (#[trigger] found[k]).1,
        ) by {
            tpe::law_leader_has_the_highest_score(scores, k);
            assert(scores[k] == found[k].1);
        }
    }
    assert(are_scored(reals, l, g, found, stops));
    assert(t == found[best].0);
}

/// A float that the model proposes leads its candidates on the axis between its bounds, and is the
/// number at that place. Where too few good trials had the parameter, it is drawn afresh.
pub proof fn law_modeled_floats_lead_their_candidates<R: Reals>(
    s: TpeSampler,
    reals: &R,
    space: SpaceModel,
    history: HistoryModel,
    p: Assignment,
    after: TpeSampler,
    i: int,
    bounds: distribution::Bounds,
    log: bool,
    step: Option<Scalar>,
)
    requires
        s.proposes(reals, space, history, p, after),
        space::space_ordered(space),
        0 <= i < space.len(),
        space[i].dist == (DistModel::Float { bounds, log, step }),
        p.contains_key(space[i].name),
        selection::fit_trials(history, s@.objective).len() >= s@.n_startup_trials,
        selection::fit_trials(history, s@.objective).len() >= 2,
    ensures
        exists|good: HistoryModel, bad: HistoryModel|
            #[trigger] falls_into(reals, s@, history, good, bad) && if good.filter(
                had(space[i].name),
            ).len() < s@.min_branch_obs {
                exists|rng: TrialRng, then: TrialRng| #[trigger]
                    distribution::is_draw(
                        reals,
                        space[i].dist,
                        rng,
                        p[space[i].name],
                        then,
                    )
            } else {
                exists|lo: Scalar, hi: Scalar, t: Scalar|
                    axis::lies_at(reals, bounds.low, log, lo) && axis::lies_at(
                        reals,
                        bounds.high,
                        log,
                        hi,
                    ) && #[trigger] leads(
                        reals,
                        good,
                        bad,
                        space[i].name,
                        log,
                        false,
                        lo,
                        hi,
                        s@.n_candidates,
                        t,
                    ) && (p[space[i].name] matches ParamModel::Float(r) && axis::is_off_axis(
                        reals,
                        bounds,
                        log,
                        step,
                        t,
                        r,
                    ))
            },
{
    let name = space[i].name;
    let (good, bad, from, to) = modeled_in_its_turn(s, reals, space, history, p, after, i);
    if good.filter(had(name)).len() >= s@.min_branch_obs {
        let (go, bo) = (
            models::pick(good.map_values(|t: TrialModel| t.params), tpe::observed(name)),
            models::pick(bad.map_values(|t: TrialModel| t.params), tpe::observed(name)),
        );
        let r = p[name]->Float_0;
        let (lo, hi, t) = choose|lo: Scalar, hi: Scalar, t: Scalar|
            axis::lies_at(reals, bounds.low, log, lo) && axis::lies_at(reals, bounds.high, log, hi)
                && #[trigger] tpe::is_leading(
                reals,
                go,
                bo,
                false,
                log,
                lo,
                hi,
                s@.n_candidates,
                from,
                t,
                to,
            ) && axis::is_off_axis(reals, bounds, log, step, t, r);
        leading_leads(reals, good, bad, name, log, false, lo, hi, s@.n_candidates, from, t, to);
    }
    assert(falls_into(reals, s@, history, good, bad));
}

/// An integer that the model proposes leads its candidates on the axis between its bounds, and is
/// the integer at that place. Where too few good trials had the parameter, it is drawn afresh.
pub proof fn law_modeled_integers_lead_their_candidates<R: Reals>(
    s: TpeSampler,
    reals: &R,
    space: SpaceModel,
    history: HistoryModel,
    p: Assignment,
    after: TpeSampler,
    i: int,
    low: i64,
    high: i64,
    log: bool,
    step: i64,
)
    requires
        s.proposes(reals, space, history, p, after),
        space::space_ordered(space),
        0 <= i < space.len(),
        space[i].dist == (DistModel::Int { low, high, log, step }),
        p.contains_key(space[i].name),
        selection::fit_trials(history, s@.objective).len() >= s@.n_startup_trials,
        selection::fit_trials(history, s@.objective).len() >= 2,
    ensures
        exists|good: HistoryModel, bad: HistoryModel|
            #[trigger] falls_into(reals, s@, history, good, bad) && if good.filter(
                had(space[i].name),
            ).len() < s@.min_branch_obs {
                exists|rng: TrialRng, then: TrialRng| #[trigger]
                    distribution::is_draw(
                        reals,
                        space[i].dist,
                        rng,
                        p[space[i].name],
                        then,
                    )
            } else {
                exists|lo: Scalar, hi: Scalar, t: Scalar|
                    axis::int_lies_at(reals, low, log, lo) && axis::int_lies_at(
                        reals,
                        high,
                        log,
                        hi,
                    ) && #[trigger] leads(
                        reals,
                        good,
                        bad,
                        space[i].name,
                        log,
                        true,
                        lo,
                        hi,
                        s@.n_candidates,
                        t,
                    ) && (p[space[i].name] matches ParamModel::Int(r) && axis::is_int_off_axis(
                        reals,
                        low,
                        high,
                        log,
                        step,
                        t,
                        r,
                    ))
            },
{
    let name = space[i].name;
    let (good, bad, from, to) = modeled_in_its_turn(s, reals, space, history, p, after, i);
    if good.filter(had(name)).len() >= s@.min_branch_obs {
        let (go, bo) = (
            models::pick(good.map_values(|t: TrialModel| t.params), tpe::observed(name)),
            models::pick(bad.map_values(|t: TrialModel| t.params), tpe::observed(name)),
        );
        let r = p[name]->Int_0;
        let (lo, hi, t) = choose|lo: Scalar, hi: Scalar, t: Scalar|
            axis::int_lies_at(reals, low, log, lo) && axis::int_lies_at(reals, high, log, hi)
                && #[trigger] tpe::is_leading(
                reals,
                go,
                bo,
                true,
                log,
                lo,
                hi,
                s@.n_candidates,
                from,
                t,
                to,
            ) && axis::is_int_off_axis(reals, low, high, log, step, t, r);
        leading_leads(reals, good, bad, name, log, true, lo, hi, s@.n_candidates, from, t, to);
    }
    assert(falls_into(reals, s@, history, good, bad));
}

/// The model waits for enough trials: as long as fewer complete trials have a finite value than it
/// starts with, or fewer than two, it samples at random.
pub proof fn law_the_model_waits_for_enough_trials<R: Reals>(
    s: TpeSampler,
    reals: &R,
    space: SpaceModel,
    history: HistoryModel,
    p: Assignment,
    after: TpeSampler,
)
    requires
        s.proposes(reals, space, history, p, after),
        selection::fit_trials(history, s@.objective).len() < s@.n_startup_trials
            || selection::fit_trials(history, s@.objective).len() < 2,
    ensures
        crate::sampler::suggests_at_random(reals, space, s@.seed, history.len() as int, p),
{
    selection::pool_is_fit_trials(history, s@.objective);
}

} // verus!
