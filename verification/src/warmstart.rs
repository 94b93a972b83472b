//! Study warm-starting and transfer.
//!
//! Warm-starting seeds the search with known-good configurations, the best trials of a prior
//! study, which are evaluated first, before the sampler takes over. Those trials then enter the
//! history, so a model-based sampler conditions on them at once.

use vstd::prelude::*;
use crate::named::Named;
use crate::metrics::Direction;
use crate::order::ranking_by;
use crate::param::{Assignment, ParamSet};
use crate::reals::Reals;
use crate::sampler::Sampler;
use crate::scalar::Scalar;
use crate::space::{SearchSpace, SpaceModel};
use crate::trial::{HistoryModel, TrialHistory, TrialModel, TrialRecord, TrialState};
#[allow(unused_imports)]
use crate::models;
#[allow(unused_imports)]
use crate::order;
#[allow(unused_imports)]
use crate::selection;
#[allow(unused_imports)]
use crate::space;

verus! {

/// A completed trial with a finite value: its configuration, its value and its id.
pub struct Candidate {
    /// The configuration.
    pub params: Assignment,
    /// The value.
    pub value: Scalar,
    /// The trial's id.
    pub id: u64,
}

/// Selects completed trials that reported a finite objective.
pub open spec fn candidate(objective: Seq<char>) -> spec_fn(TrialModel) -> Option<Candidate> {
    |t: TrialModel|
        if t.state == TrialState::Complete {
            match t.value(objective) {
                Some(v) => if v.finite() {
                    Some(Candidate { params: t.params, value: v, id: t.id.0 })
                } else {
                    None
                },
                None => None,
            }
        } else {
            None
        }
}

/// The values of candidates.
pub open spec fn values_of(pool: Seq<Candidate>) -> Seq<Scalar> {
    pool.map_values(|c: Candidate| c.value)
}

/// The ids of candidates.
pub open spec fn ids_of(pool: Seq<Candidate>) -> Seq<u64> {
    pool.map_values(|c: Candidate| c.id)
}

/// Whether `top` holds the configurations of the `n` best candidates, best first, lower ids
/// first among equals.
pub open spec fn is_top(
    pool: Seq<Candidate>,
    d: Direction,
    n: int,
    top: Seq<Assignment>,
) -> bool {
    exists|p: Seq<usize>| #[trigger]
        order::is_ranking_by(values_of(pool), ids_of(pool), d, p) && top == Seq::new(
            (if n < pool.len() {
                n
            } else {
                pool.len() as int
            }) as nat,
            |i: int| pool[p[i] as int].params,
        )
}

/// The `n` best configurations from a prior study's history for `objective`, best first. Only
/// completed trials that reported a finite objective are considered; ties go to the lower
/// trial id.
pub fn best_configs(
    history: &TrialHistory,
    objective: &str,
    direction: Direction,
    n: usize,
) -> (top: Vec<ParamSet>)
    ensures
        is_top(
            models::pick(history@, candidate(objective@)),
            direction,
            n as int,
            models::of(top@),
        ),
{
    let records = history.records();
    let ghost hm = history@;
    let ghost f = candidate(objective@);
    let mut at: Vec<usize> = Vec::new();
    let mut values: Vec<Scalar> = Vec::new();
    let mut ids: Vec<u64> = Vec::new();
    let mut i: usize = 0;
    while i < records.len()
        invariant
            i <= records@.len(),
            records@.len() == hm.len(),
            f == candidate(objective@),
            forall|k: int| 0 <= k < records@.len() ==> (#[trigger] records@[k])@ == hm[k],
            at@.len() == models::pick(hm.take(i as int), f).len(),
            values@.len() == at@.len(),
            ids@.len() == at@.len(),
            forall|k: int|
                0 <= k < at@.len() ==> (#[trigger] at@[k]) < i && models::pick(
                    hm.take(i as int),
                    f,
                )[k] == (Candidate {
                    params: hm[at@[k] as int].params,
                    value: values@[k],
                    id: ids@[k],
                }) && !values@[k].nan(),
        decreases records@.len() - i,
    {
        proof {
            models::pick_step(hm, i as int, f);
            assert(records@[i as int]@ == hm[i as int]);
        }
        if records[i].state == TrialState::Complete {
            if let Some(v) = records[i].final_value(objective) {
                if v.is_finite() {
                    at.push(i);
                    values.push(v);
                    ids.push(records[i].id.0);
                }
            }
        }
        i += 1;
    }
    let ghost pool = models::pick(hm, f);
    proof {
        models::pick_whole(hm, f);
        assert forall|k: int| 0 <= k < pool.len() implies #[trigger] values@[k] == pool[k].value
            && !values@[k].nan() by {
            assert(at@[k] < i);
        }
        assert forall|k: int| 0 <= k < pool.len() implies #[trigger] ids@[k] == pool[k].id by {
            assert(at@[k] < i);
        }
        assert(values@ =~= values_of(pool));
        assert(ids@ =~= ids_of(pool));
    }
    let p = ranking_by(&values, &ids, direction);
    let mut top: Vec<ParamSet> = Vec::new();
    let mut j: usize = 0;
    while j < n && j < p.len()
        invariant
            j <= n,
            j <= p@.len(),
            order::is_permutation(p@, at@.len() as int),
            records@.len() == hm.len(),
            forall|k: int| 0 <= k < records@.len() ==> (#[trigger] records@[k])@ == hm[k],
            forall|k: int| 0 <= k < at@.len() ==> (#[trigger] at@[k]) < records@.len(),
            top@.len() == j,
            forall|k: int|
                0 <= k < j ==> (#[trigger] top@[k])@ == hm[at@[p@[k] as int] as int].params,
        decreases p@.len() - j,
    {
        let which = p[j];
        let r = at[which];
        proof {
            assert(records@[r as int]@ == hm[r as int]);
        }
        top.push(records[r].params.clone());
        j += 1;
    }
    proof {
        assert forall|k: int| 0 <= k < j implies (#[trigger] models::of(top@)[k])
            == pool[p@[k] as int].params by {
            assert(at@[p@[k] as int] < i);
        }
        assert(models::of(top@) =~= Seq::new(j as nat, |i: int| pool[p@[i] as int].params));
    }
    top
}

/// What a seed holds of the parameters that a space defines.
pub open spec fn projected(defs: SpaceModel, seed: Assignment) -> Assignment {
    seed.restrict(Set::new(|name: Seq<char>| space::declared_before(defs, defs.len() as int, name)))
}

/// A sampler that replays a queue of seed configurations before delegating to an inner sampler.
///
/// Each `suggest` first takes a seed, cut down to the parameters the space defines; once the
/// seeds are exhausted it defers to the inner sampler.
pub struct WarmStartSampler<S> {
    inner: S,
    /// The seeds, last one first.
    seeds: Vec<ParamSet>,
}

impl<S> WarmStartSampler<S> {
    /// The seeds that remain, in order.
    pub closed spec fn queue(self) -> Seq<Assignment> {
        models::of(self.seeds@).reverse()
    }

    /// The sampler that takes over once the seeds are played.
    pub closed spec fn wraps(self) -> S {
        self.inner
    }

    /// Wrap `inner`, replaying `seeds` in order before the inner sampler runs.
    pub fn new(inner: S, seeds: Vec<ParamSet>) -> (s: Self)
        ensures
            s.wraps() == inner,
            s.queue() == models::of(seeds@),
    {
        let ghost all = models::of(seeds@);
        let mut rest = seeds;
        let mut reversed: Vec<ParamSet> = Vec::new();
        proof {
            assert(models::of(rest@) + models::of(reversed@).reverse() =~= all);
        }
        while rest.len() > 0
            invariant
                models::of(rest@) + models::of(reversed@).reverse() == all,
            decreases rest@.len(),
        {
            let ghost before = rest@;
            let ghost done = reversed@;
            if let Some(last) = rest.pop() {
                reversed.push(last);
                proof {
                    assert(models::of(rest@) + models::of(reversed@).reverse() =~= models::of(
                        before,
                    ) + models::of(done).reverse());
                }
            }
        }
        proof {
            assert(models::of(rest@) + models::of(reversed@).reverse() =~= models::of(
                reversed@,
            ).reverse());
        }
        WarmStartSampler { inner, seeds: reversed }
    }

    /// How many seed configurations remain unplayed.
    pub fn remaining(&self) -> (n: usize)
        ensures
            n == self.queue().len(),
    {
        self.seeds.len()
    }

    /// Keep only the seed parameters this space defines.
    pub fn project(space: &SearchSpace, seed: &ParamSet) -> (out: ParamSet)
        ensures
            out@ == projected(space@, seed@),
    {
        let mut out = ParamSet::new();
        let defs = space.params();
        let mut i: usize = 0;
        while i < defs.len()
            invariant
                i <= defs@.len(),
                defs@.len() == space@.len(),
                forall|k: int| 0 <= k < defs@.len() ==> (#[trigger] defs@[k])@ == space@[k],
                forall|name: Seq<char>| #[trigger]
                    out@.contains_key(name) <==> seed@.contains_key(name)
                        && space::declared_before(space@, i as int, name),
                forall|name: Seq<char>| #[trigger]
                    out@.contains_key(name) ==> out@[name] == seed@[name],
            decreases defs@.len() - i,
        {
            let def = &defs[i];
            proof {
                assert(def@ == space@[i as int]);
                assert forall|name: Seq<char>| #[trigger]
                    space::declared_before(space@, i + 1, name) == (space::declared_before(
                        space@,
                        i as int,
                        name,
                    ) || name == def.name@) by {
                    if name == def.name@ {
                        assert(space@[i as int].name == name);
                    }
                    if space::declared_before(space@, i as int, name) {
                        let j = choose|j: int|
                            0 <= j < i && (#[trigger] space@[j]).name == name;
                        assert(space@[j].name == name);
                    }
                }
            }
            let ghost before = out@;
            if let Some(v) = seed.get(def.name.as_str()) {
                out.insert(def.name.as_str(), v.clone());
            }
            i += 1;
        }
        proof {
            assert(out@ =~= projected(space@, seed@));
        }
        out
    }
}

impl<S> Named for WarmStartSampler<S> {
    open spec fn label(&self) -> Seq<char> {
        "warm-start"@
    }

    fn name(&self) -> (r: &'static str) {
        "warm-start"
    }
}

impl<R: Reals, S: Sampler<R>> Sampler<R> for WarmStartSampler<S> {
    open spec fn proposes(
        &self,
        reals: &R,
        space: SpaceModel,
        history: HistoryModel,
        p: Assignment,
        after: Self,
    ) -> bool {
        let queue = self.queue();
        &&& after.queue() == if queue.len() > 0 {
            queue.drop_first()
        } else {
            queue
        }
        &&& if queue.len() > 0 && !(projected(space, queue[0]).dom() =~= Set::<Seq<char>>::empty()) {
            p == projected(space, queue[0]) && after.wraps() == self.wraps()
        } else {
            self.wraps().proposes(reals, space, history, p, after.wraps())
        }
    }

    open spec fn observes(&self, trial: TrialModel, after: Self) -> bool {
        &&& after.queue() == self.queue()
        &&& <S as Sampler<R>>::observes(&self.wraps(), trial, after.wraps())
    }

    fn suggest(
        &mut self,
        space: &SearchSpace,
        history: &TrialHistory,
        reals: &R,
    ) -> (p: ParamSet) {
        let ghost before = self.seeds@;
        if let Some(seed) = self.seeds.pop() {
            proof {
                assert(models::of(self.seeds@).reverse() =~= models::of(
                    before,
                ).reverse().drop_first());
                assert(models::of(before).reverse()[0] == seed@);
            }
            let kept = Self::project(space, &seed);
            if !kept.is_empty() {
                return kept;
            }
        }
        self.inner.suggest(space, history, reals)
    }

    fn on_trial_complete(&mut self, trial: &TrialRecord) {
        <S as Sampler<R>>::on_trial_complete(&mut self.inner, trial);
    }
}

/// The best configurations are those of the best trials: of all complete trials with a finite
/// value, as many as are asked for, best first, and none that is left out is better than one that
/// is taken.
pub proof fn law_best_configurations_are_of_the_best_trials(
    history: HistoryModel,
    objective: Seq<char>,
    d: Direction,
    n: int,
    top: Seq<Assignment>,
)
    requires
        is_top(models::pick(history, candidate(objective)), d, n, top),
        n >= 0,
    ensures
        ({
            let fit = selection::fit_trials(history, objective);
            &&& top.len() <= n && top.len() <= fit.len() && (top.len() == n || top.len()
                == fit.len())
            &&& exists|taken: Seq<int>|
                taken.len() == top.len() && #[trigger] taken.no_duplicates() && (forall|i: int|
                    0 <= i < taken.len() ==> 0 <= #[trigger] taken[i] < fit.len() && top[i]
                        == fit[taken[i]].params) && (forall|i: int, j: int|
                    0 <= i < j < taken.len() ==> !d.better(
                        fit[#[trigger] taken[j]].final_metrics->0[objective],
                        fit[#[trigger] taken[i]].final_metrics->0[objective],
                    )) && (forall|i: int, j: int|
                    0 <= i < taken.len() && 0 <= j < fit.len() && !taken.contains(j) ==> !d.better(
                        (#[trigger] fit[j]).final_metrics->0[objective],
                        fit[#[trigger] taken[i]].final_metrics->0[objective],
                    ))
        }),
{
    let fit = selection::fit_trials(history, objective);
    let pool = models::pick(history, candidate(objective));
    let values = values_of(pool);
    candidates_are_fit(history, objective);
    let p = choose|p: Seq<usize>| #[trigger]
        order::is_ranking_by(values, ids_of(pool), d, p) && top == Seq::new(
            (if n < pool.len() {
                n
            } else {
                pool.len() as int
            }) as nat,
            |i: int| pool[p[i] as int].params,
        );
    assert forall|i: int| 0 <= i < fit.len() implies pool[i].params == (#[trigger] fit[i]).params
        && values[i] == fit[i].final_metrics->0[objective] && !values[i].nan() by {
        assert(selection::is_fit(objective)(fit[i]));
    }
    assert(order::all_numbers(values)) by {
        assert forall|i: int| 0 <= i < values.len() implies !(#[trigger] values[i]).nan() by {
            assert(fit[i].params == pool[i].params);
        }
    }
    let taken = Seq::new(top.len(), |i: int| p[i] as int);
    assert(taken.no_duplicates()) by {
        assert forall|i: int, j: int|
            0 <= i < taken.len() && 0 <= j < taken.len() && i != j implies taken[i] != taken[j] by {
            if i < j {
                assert(p[i] != p[j]);
            } else {
                assert(p[j] != p[i]);
            }
        }
    }
    assert forall|i: int| 0 <= i < taken.len() implies 0 <= #[trigger] taken[i] < fit.len()
        && top[i] == fit[taken[i]].params by {
        assert(p[i] < pool.len());
    }
    assert forall|i: int, j: int| 0 <= i < j < taken.len() implies !d.better(
        fit[#[trigger] taken[j]].final_metrics->0[objective],
        fit[#[trigger] taken[i]].final_metrics->0[objective],
    ) by {
        order::law_rankings_by_id_put_the_better_first(values, ids_of(pool), d, p, i, j);
        assert(p[i] < pool.len() && p[j] < pool.len());
    }
    assert forall|i: int, j: int|
        0 <= i < taken.len() && 0 <= j < fit.len() && !taken.contains(j) implies !d.better(
        (#[trigger] fit[j]).final_metrics->0[objective],
        fit[#[trigger] taken[i]].final_metrics->0[objective],
    ) by {
        order::permutation_is_onto(p, pool.len() as int, j);
        let k = choose|k: int| 0 <= k < p.len() && #[trigger] p[k] == j;
        if k < taken.len() {
            assert(taken[k] == j);
        }
        order::law_rankings_by_id_put_the_better_first(values, ids_of(pool), d, p, i, k);
        assert(p[i] < pool.len());
    }
}

proof fn candidates_are_fit(history: HistoryModel, objective: Seq<char>)
    ensures
        models::pick(history, candidate(objective)) == selection::fit_trials(
            history,
            objective,
        ).map_values(
            |t: TrialModel|
                Candidate {
                    params: t.params,
                    value: t.final_metrics->0[objective],
                    id: t.id.0,
                },
        ),
    decreases history.len(),
{
    reveal(Seq::filter);
    let fit = selection::fit_trials(history, objective);
    let made = fit.map_values(
        |t: TrialModel|
            Candidate { params: t.params, value: t.final_metrics->0[objective], id: t.id.0 },
    );
    if history.len() > 0 {
        candidates_are_fit(history.drop_last(), objective);
        assert(models::pick(history, candidate(objective)) =~= made);
    } else {
        assert(models::pick(history, candidate(objective)) =~= made);
    }
}

/// While seeds remain, a warm start proposes the next one, cut down to the parameters of the space
/// and with nothing changed; the seeds behind it stay in line.
pub proof fn law_seeds_come_first<R: Reals, S: Sampler<R>>(
    s: WarmStartSampler<S>,
    reals: &R,
    space: SpaceModel,
    history: HistoryModel,
    p: Assignment,
    after: WarmStartSampler<S>,
    i: int,
)
    requires
        s.proposes(reals, space, history, p, after),
        s.queue().len() > 0,
        0 <= i < space.len(),
        s.queue()[0].contains_key(space[i].name),
    ensures
        after.queue() == s.queue().drop_first(),
        after.wraps() == s.wraps(),
        forall|name: Seq<char>| #[trigger]
            p.contains_key(name) <==> s.queue()[0].contains_key(name) && exists|k: int|
                0 <= k < space.len() && (#[trigger] space[k]).name == name,
        forall|name: Seq<char>| #[trigger]
            p.contains_key(name) ==> p[name] == s.queue()[0][name],
{
    let name = space[i].name;
    assert(space::declared_before(space, space.len() as int, name));
    assert(projected(space, s.queue()[0]).dom().contains(name));
}

} // verus!
