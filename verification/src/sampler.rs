//! Samplers: the `Sampler` trait plus the random and grid baselines.
//!
//! Sampling is define-and-run: [`Sampler::suggest`] receives the whole [`SearchSpace`] and
//! returns a [`ParamSet`]. Conditional parameters are only sampled when their gate is satisfied
//! by values chosen earlier in the same call.

use vstd::prelude::*;
use crate::named::Named;
use crate::param::{Assignment, ParamModel, ParamSet, ParamValue};
use crate::reals::Reals;
use crate::rng::TrialRng;
use crate::space::{ParamDef, SearchSpace};
use crate::space::{DefModel, SpaceModel};
use crate::trial::{HistoryModel, TrialHistory, TrialModel, TrialRecord};
#[allow(unused_imports)]
use crate::distribution;
#[allow(unused_imports)]
use crate::models;
#[allow(unused_imports)]
use crate::space;

verus! {

/// The odd multiplier that spreads trial numbers over seeds.
pub const GOLDEN: u64 = 0x9E3779B97F4A7C15;

/// The seed of the suggestion made after `trials` trials.
pub open spec fn suggestion_seed(seed: u64, trials: int) -> u64 {
    seed ^ (trials as u64).wrapping_mul(GOLDEN)
}

/// The generator for the suggestion made after `trials` trials.
pub fn suggestion_rng(seed: u64, trials: usize) -> (r: TrialRng)
    ensures
        r == (TrialRng { seed: suggestion_seed(seed, trials as int), word: 0 }),
{
    TrialRng::new(seed ^ (trials as u64).wrapping_mul(GOLDEN))
}

/// Suggests the next [`ParamSet`] to evaluate from a study's history. Draws that need
/// floating-point arithmetic are asked of a `C`.
pub trait Sampler<C: Reals>: Named + Sized {
    /// Whether the sampler may propose `p` for a space and a history, and is `after` from then
    /// on.
    spec fn proposes(
        &self,
        reals: &C,
        space: SpaceModel,
        history: HistoryModel,
        p: Assignment,
        after: Self,
    ) -> bool;

    /// Whether the sampler may be `after` once it has seen a completed trial.
    spec fn observes(&self, trial: TrialModel, after: Self) -> bool;

    /// Propose parameters for the next trial.
    fn suggest(&mut self, space: &SearchSpace, history: &TrialHistory, reals: &C) -> (p: ParamSet)
        requires
            space::drawable_space(space@),
        ensures
            old(self).proposes(reals, space@, history@, p@, *final(self)),
    ;

    /// Observe a completed trial. Stateless samplers may ignore this.
    fn on_trial_complete(&mut self, trial: &TrialRecord)
        ensures
            old(self).observes(trial@, *final(self)),
    ;
}

/// Whether no parameter of the space needs floating-point arithmetic.
pub open spec fn discrete_space(defs: SpaceModel) -> bool {
    forall|i: int| 0 <= i < defs.len() ==> !(#[trigger] defs[i]).dist.continuous()
}

/// What a walk over the first `n` definitions of a discrete space assigns, and where it leaves
/// the generator.
pub open spec fn walked(defs: SpaceModel, n: nat, rng: TrialRng) -> (Assignment, TrialRng)
    decreases n,
{
    if n == 0 {
        (Assignment::empty(), rng)
    } else {
        let (a, r) = walked(defs, (n - 1) as nat, rng);
        let d = defs[n - 1];
        if d.active(a) {
            (a.insert(d.name, d.dist.drawn(r)), d.dist.past_draw(r))
        } else {
            (a, r)
        }
    }
}

/// Whether drawing goes on by one parameter from `before` to `after`: an active parameter is
/// drawn, any other is passed over.
pub open spec fn draws_next<C: Reals>(
    reals: &C,
    def: DefModel,
    before: (Assignment, TrialRng),
    after: (Assignment, TrialRng),
) -> bool {
    if def.active(before.0) {
        &&& after.0 == before.0.insert(def.name, after.0[def.name])
        &&& distribution::is_draw(reals, def.dist, before.1, after.0[def.name], after.1)
    } else {
        after == before
    }
}

/// Whether `a` comes of drawing the first `n` parameters in declaration order from nothing at
/// `rng`, with `after` the position behind them.
pub open spec fn is_walked<C: Reals>(
    reals: &C,
    defs: SpaceModel,
    n: nat,
    rng: TrialRng,
    a: Assignment,
    after: TrialRng,
) -> bool
    decreases n,
{
    if n == 0 {
        a == Map::<Seq<char>, ParamModel>::empty() && after == rng
    } else {
        exists|before: (Assignment, TrialRng)|
            is_walked(reals, defs, (n - 1) as nat, rng, before.0, before.1)
                && #[trigger] draws_next(reals, defs[n - 1], before, (a, after))
    }
}

/// Whether `a` comes of drawing every active parameter of a space at `rng`.
pub open spec fn is_random<C: Reals>(
    reals: &C,
    defs: SpaceModel,
    rng: TrialRng,
    a: Assignment,
) -> bool {
    exists|after: TrialRng| #[trigger] is_walked(reals, defs, defs.len(), rng, a, after)
}

/// Whether `p` is what random sampling from `seed` suggests after `trials` trials: a draw of every
/// active parameter, legal where the space is in order, and without floating-point arithmetic the
/// one that the seed determines.
pub open spec fn suggests_at_random<C: Reals>(
    reals: &C,
    defs: SpaceModel,
    seed: u64,
    trials: int,
    p: Assignment,
) -> bool {
    let rng = TrialRng { seed: suggestion_seed(seed, trials), word: 0 };
    &&& is_random(reals, defs, rng, p)
    &&& space::space_ordered(defs) ==> space::legal(defs, p)
    &&& discrete_space(defs) ==> p == walked(defs, defs.len(), rng).0
}

/// Whether `a` assigns exactly the active parameters among the first `n` definitions, each a
/// value that fits.
pub open spec fn legal_prefix(defs: SpaceModel, n: int, a: Assignment) -> bool {
    space::exact_prefix(defs, n, a) && space::fits_prefix(defs, n, a)
}

/// Assigning the next active definition keeps the assignment exact, and legal if the value fits.
pub proof fn legal_insert(defs: SpaceModel, n: int, a: Assignment, v: ParamModel)
    requires
        space::space_ordered(defs),
        0 <= n < defs.len(),
        space::exact_prefix(defs, n, a),
        defs[n].active(a),
    ensures
        space::exact_prefix(defs, n + 1, a.insert(defs[n].name, v)),
        space::fits_prefix(defs, n, a) && defs[n].dist.fits(v) ==> space::fits_prefix(
            defs,
            n + 1,
            a.insert(defs[n].name, v),
        ),
{
    let b = a.insert(defs[n].name, v);
    assert(space::def_ordered(defs, n));
    assert forall|j: int| 0 <= j < n implies (#[trigger] defs[j]).name != defs[n].name by {
        if defs[j].name == defs[n].name {
            assert(space::declared_before(defs, n, defs[n].name));
        }
    }
    assert forall|j: int| 0 <= j <= n implies (#[trigger] defs[j]).active(a) == defs[j].active(
        b,
    ) by {
        space::law_activity_is_settled(defs, j, a, b);
    }
    assert forall|name: Seq<char>| #[trigger] b.contains_key(name) implies exists|i: int|
        0 <= i < n + 1 && (#[trigger] defs[i]).name == name && defs[i].active(b) by {
        if name == defs[n].name {
            assert(defs[n].active(b));
        } else {
            assert(a.contains_key(name));
            let i = choose|i: int|
                0 <= i < n && (#[trigger] defs[i]).name == name && defs[i].active(a);
            assert(defs[i].active(b));
        }
    }
}

/// Passing over an inactive definition keeps the assignment exact, and legal if it was.
pub proof fn legal_skip(defs: SpaceModel, n: int, a: Assignment)
    requires
        0 <= n < defs.len(),
        space::exact_prefix(defs, n, a),
        !defs[n].active(a),
    ensures
        space::exact_prefix(defs, n + 1, a),
        space::fits_prefix(defs, n, a) ==> space::fits_prefix(defs, n + 1, a),
{
    assert forall|name: Seq<char>| #[trigger] a.contains_key(name) implies exists|i: int|
        0 <= i < n + 1 && (#[trigger] defs[i]).name == name && defs[i].active(a) by {
        let i = choose|i: int| 0 <= i < n && (#[trigger] defs[i]).name == name && defs[i].active(a);
        assert(defs[i].active(a));
    }
}

/// Independent, uniform random sampling over the (conditional) search space.
///
/// Deterministic given its seed: the generator is derived per call from the base seed and the
/// number of trials already seen, so a replayed study produces identical suggestions.
#[derive(Debug)]
pub struct RandomSampler {
    seed: u64,
}

impl RandomSampler {
    /// The base seed.
    pub closed spec fn seed(self) -> u64 {
        self.seed
    }

    /// A random sampler seeded for reproducibility.
    pub fn new(seed: u64) -> (s: Self)
        ensures
            s.seed() == seed,
    {
        RandomSampler { seed }
    }

    /// Draw one active-parameter assignment using the given generator.
    pub fn sample_space<C: Reals>(
        space: &SearchSpace,
        rng: &mut TrialRng,
        reals: &C,
    ) -> (p: ParamSet)
        requires
            space::drawable_space(space@),
        ensures
            discrete_space(space@) ==> (p@, *final(rng)) == walked(
                space@,
                space@.len(),
                *old(rng),
            ),
            is_walked(reals, space@, space@.len(), *old(rng), p@, *final(rng)),
            space::space_ordered(space@) ==> space::legal(space@, p@),
    {
        let mut params = ParamSet::new();
        proof {
            assert(params@ =~= Map::<Seq<char>, ParamModel>::empty());
        }
        let defs = space.params();
        let mut i: usize = 0;
        while i < defs.len()
            invariant
                i <= space@.len(),
                defs@.len() == space@.len(),
                forall|k: int| 0 <= k < defs@.len() ==> (#[trigger] defs@[k])@ == space@[k],
                space::drawable_space(space@),
                discrete_space(space@) ==> (params@, *rng) == walked(space@, i as nat, *old(rng)),
                space::space_ordered(space@) ==> legal_prefix(space@, i as int, params@),
                is_walked(reals, space@, i as nat, *old(rng), params@, *rng),
            decreases defs@.len() - i,
        {
            let def = &defs[i];
            let ghost before = (params@, *rng);
            proof {
                assert(def@ == space@[i as int]);
            }
            if SearchSpace::is_active(def, &params) {
                let v = def.distribution.sample(rng, reals);
                proof {
                    if space::space_ordered(space@) {
                        legal_insert(space@, i as int, params@, v@);
                    }
                }
                params.insert(def.name.as_str(), v);
            } else {
                proof {
                    if space::space_ordered(space@) {
                        legal_skip(space@, i as int, params@);
                    }
                }
            }
            proof {
                let n = (i + 1) as nat;
                assert(draws_next(reals, space@[n - 1], before, (params@, *rng)));
                assert(is_walked(reals, space@, n, *old(rng), params@, *rng));
            }
            i += 1;
        }
        params
    }
}

impl Named for RandomSampler {
    open spec fn label(&self) -> Seq<char> {
        "random"@
    }

    fn name(&self) -> (r: &'static str) {
        "random"
    }
}

impl<C: Reals> Sampler<C> for RandomSampler {
    open spec fn proposes(
        &self,
        reals: &C,
        space: SpaceModel,
        history: HistoryModel,
        p: Assignment,
        after: Self,
    ) -> bool {
        &&& after == *self
        &&& suggests_at_random(reals, space, self.seed(), history.len() as int, p)
    }

    open spec fn observes(&self, trial: TrialModel, after: Self) -> bool {
        after == *self
    }

    fn suggest(
        &mut self,
        space: &SearchSpace,
        history: &TrialHistory,
        reals: &C,
    ) -> (p: ParamSet) {
        let mut rng = suggestion_rng(self.seed, history.len());
        Self::sample_space(space, &mut rng, reals)
    }

    fn on_trial_complete(&mut self, trial: &TrialRecord) {
    }
}

/// The assignments that `partial` is extended to at one definition.
pub open spec fn extend_one(partial: Assignment, def: DefModel, grid: Seq<ParamModel>) -> Seq<
    Assignment,
> {
    if def.active(partial) {
        Seq::new(grid.len(), |k: int| partial.insert(def.name, grid[k]))
    } else {
        seq![partial]
    }
}

/// The assignments that a list of partial ones is extended to at one definition.
pub open spec fn extend_all(partials: Seq<Assignment>, def: DefModel, grid: Seq<ParamModel>) -> Seq<
    Assignment,
>
    decreases partials.len(),
{
    if partials.len() == 0 {
        Seq::empty()
    } else {
        extend_all(partials.drop_last(), def, grid) + extend_one(partials.last(), def, grid)
    }
}

/// The conditional Cartesian product of the first `n` grids.
pub open spec fn product(defs: SpaceModel, grids: Seq<Seq<ParamModel>>, n: nat) -> Seq<Assignment>
    decreases n,
{
    if n == 0 {
        seq![Assignment::empty()]
    } else {
        extend_all(product(defs, grids, (n - 1) as nat), defs[n - 1], grids[n - 1])
    }
}

/// Whether each grid holds only values that fit its definition.
pub open spec fn grids_fit(defs: SpaceModel, grids: Seq<Seq<ParamModel>>) -> bool {
    &&& grids.len() == defs.len()
    &&& forall|i: int, k: int|
        0 <= i < defs.len() && 0 <= k < grids[i].len() ==> defs[i].dist.fits(
            #[trigger] grids[i][k],
        )
}

/// Whether every definition of a space can be laid out as a grid.
pub open spec fn gridable_space(defs: SpaceModel) -> bool {
    forall|i: int| 0 <= i < defs.len() ==> (#[trigger] defs[i]).dist.gridable()
}

/// Whether no distribution of a space has a defect.
pub open spec fn valid_dists(defs: SpaceModel) -> bool {
    forall|i: int| 0 <= i < defs.len() ==> (#[trigger] defs[i]).dist.defect() is None
}

/// Whether `grids` lay out the definitions of a space, with `samples` points over a float range
/// without steps.
pub open spec fn are_grids<C: Reals>(
    reals: &C,
    defs: SpaceModel,
    samples: usize,
    grids: Seq<Seq<ParamModel>>,
) -> bool {
    &&& grids.len() == defs.len()
    &&& forall|i: int|
        0 <= i < defs.len() ==> distribution::is_grid(
            reals,
            (#[trigger] defs[i]).dist,
            samples,
            grids[i],
        )
}

/// Whether `points` is the conditional product of grids that lay out the definitions of a space.
pub open spec fn built_from<C: Reals>(
    reals: &C,
    defs: SpaceModel,
    samples: usize,
    grids: Seq<Seq<ParamModel>>,
    points: Seq<Assignment>,
) -> bool {
    &&& are_grids(reals, defs, samples, grids)
    &&& valid_dists(defs) ==> grids_fit(defs, grids)
    &&& points == product(defs, grids, defs.len())
}

/// Extending legal partial assignments gives legal ones.
proof fn extend_all_is_legal(
    defs: SpaceModel,
    n: int,
    partials: Seq<Assignment>,
    grid: Seq<ParamModel>,
)
    requires
        space::space_ordered(defs),
        0 <= n < defs.len(),
        forall|i: int| 0 <= i < partials.len() ==> legal_prefix(defs, n, #[trigger] partials[i]),
        forall|k: int| 0 <= k < grid.len() ==> defs[n].dist.fits(#[trigger] grid[k]),
    ensures
        forall|i: int|
            0 <= i < extend_all(partials, defs[n], grid).len() ==> legal_prefix(
                defs,
                n + 1,
                #[trigger] extend_all(partials, defs[n], grid)[i],
            ),
    decreases partials.len(),
{
    if partials.len() > 0 {
        let rest = partials.drop_last();
        extend_all_is_legal(defs, n, rest, grid);
        let head = extend_all(rest, defs[n], grid);
        let tail = extend_one(partials.last(), defs[n], grid);
        let p = partials.last();
        assert(legal_prefix(defs, n, partials[partials.len() - 1]));
        assert forall|i: int| 0 <= i < (head + tail).len() implies legal_prefix(
            defs,
            n + 1,
            #[trigger] (head + tail)[i],
        ) by {
            if i < head.len() {
                assert((head + tail)[i] == head[i]);
            } else {
                let k = i - head.len();
                assert((head + tail)[i] == tail[k]);
                if defs[n].active(p) {
                    legal_insert(defs, n, p, grid[k]);
                } else {
                    legal_skip(defs, n, p);
                }
            }
        }
    }
}

/// Every point of the grid of a sound space assigns exactly its active parameters.
pub proof fn law_grid_points_are_legal(
    defs: SpaceModel,
    grids: Seq<Seq<ParamModel>>,
    n: nat,
    i: int,
)
    requires
        space::space_ordered(defs),
        grids_fit(defs, grids),
        n <= defs.len(),
        0 <= i < product(defs, grids, n).len(),
    ensures
        legal_prefix(defs, n as int, product(defs, grids, n)[i]),
    decreases n,
{
    if n > 0 {
        let m = (n - 1) as nat;
        let partials = product(defs, grids, m);
        assert forall|j: int| 0 <= j < partials.len() implies legal_prefix(
            defs,
            m as int,
            #[trigger] partials[j],
        ) by {
            law_grid_points_are_legal(defs, grids, m, j);
        }
        extend_all_is_legal(defs, m as int, partials, grids[m as int]);
    }
}

/// The part of `a` that concerns the first `n` definitions.
pub open spec fn prefix_of(defs: SpaceModel, n: int, a: Assignment) -> Assignment {
    a.restrict(Set::new(|name: Seq<char>| space::declared_before(defs, n, name)))
}

proof fn extend_all_holds(
    partials: Seq<Assignment>,
    def: DefModel,
    grid: Seq<ParamModel>,
    i: int,
    k: int,
)
    requires
        0 <= i < partials.len(),
        0 <= k < extend_one(partials[i], def, grid).len(),
    ensures
        extend_all(partials, def, grid).contains(extend_one(partials[i], def, grid)[k]),
    decreases partials.len(),
{
    let head = extend_all(partials.drop_last(), def, grid);
    let tail = extend_one(partials.last(), def, grid);
    let all = head + tail;
    if i == partials.len() - 1 {
        assert(all[head.len() + k] == tail[k]);
    } else {
        extend_all_holds(partials.drop_last(), def, grid, i, k);
        let x = extend_one(partials[i], def, grid)[k];
        let j = head.index_of(x);
        assert(all[j] == x);
    }
}

/// The grid is exhaustive: every legal assignment whose values are grid values is one of its
/// points.
pub proof fn law_grid_is_complete(
    defs: SpaceModel,
    grids: Seq<Seq<ParamModel>>,
    n: nat,
    a: Assignment,
)
    requires
        space::space_ordered(defs),
        grids.len() == defs.len(),
        n <= defs.len(),
        space::legal(defs, a),
        forall|i: int|
            0 <= i < defs.len() && (#[trigger] defs[i]).active(a) ==> grids[i].contains(
                a[defs[i].name],
            ),
    ensures
        product(defs, grids, n).contains(prefix_of(defs, n as int, a)),
        n == defs.len() ==> product(defs, grids, n).contains(a),
    decreases n,
{
    let whole = prefix_of(defs, n as int, a);
    if n == 0 {
        assert(whole =~= Assignment::empty());
        assert(product(defs, grids, n)[0] == whole);
    } else {
        let m = n - 1;
        law_grid_is_complete(defs, grids, m as nat, a);
        let part = prefix_of(defs, m, a);
        let partials = product(defs, grids, m as nat);
        let d = defs[m];
        let grid = grids[m];
        let i = partials.index_of(part);
        assert(space::def_ordered(defs, m));
        assert forall|j: int| 0 <= j < m implies a.contains_key((#[trigger] defs[j]).name)
            == part.contains_key(defs[j].name) && (a.contains_key(defs[j].name)
            ==> a[defs[j].name] == part[defs[j].name]) by {
            assert(space::declared_before(defs, m, defs[j].name));
        }
        space::law_activity_is_settled(defs, m, a, part);
        assert forall|name: Seq<char>| space::declared_before(defs, n as int, name) == (
        space::declared_before(defs, m, name) || name == d.name) by {
            if space::declared_before(defs, n as int, name) {
                let j = choose|j: int| 0 <= j < n && (#[trigger] defs[j]).name == name;
                if j < m {
                    assert(space::declared_before(defs, m, name));
                }
            }
            if space::declared_before(defs, m, name) {
                let j = choose|j: int| 0 <= j < m && (#[trigger] defs[j]).name == name;
                assert(defs[j].name == name);
            }
            if name == d.name {
                assert(defs[m].name == name);
            }
        }
        if d.active(a) {
            let k = grid.index_of(a[d.name]);
            assert(whole =~= part.insert(d.name, grid[k]));
            extend_all_holds(partials, d, grid, i, k);
        } else {
            assert(!a.contains_key(d.name)) by {
                if a.contains_key(d.name) {
                    let j = choose|j: int|
                        0 <= j < defs.len() && (#[trigger] defs[j]).name == d.name
                            && defs[j].active(a);
                    if j < m {
                        assert(space::declared_before(defs, m, d.name));
                    } else if j > m {
                        assert(space::def_ordered(defs, j));
                        assert(defs[m].name == defs[j].name);
                        assert(space::declared_before(defs, j, defs[j].name));
                    }
                }
            }
            assert(whole =~= part);
            extend_all_holds(partials, d, grid, i, 0);
        }
    }
    if n == defs.len() {
        assert forall|name: Seq<char>| a.contains_key(name) implies space::declared_before(
            defs,
            n as int,
            name,
        ) by {
            let j = choose|j: int|
                0 <= j < defs.len() && (#[trigger] defs[j]).name == name && defs[j].active(a);
            assert(defs[j].name == name);
        }
        assert(whole =~= a);
    }
}

/// The models of a list of grids.
pub open spec fn grid_models(grids: Seq<Vec<ParamValue>>) -> Seq<Seq<ParamModel>> {
    grids.map_values(|g: Vec<ParamValue>| models::of(g@))
}

/// Exhaustive grid sampling over the Cartesian product of per-parameter grids.
///
/// Conditional parameters are handled by expanding child grids only under the parent values that
/// activate them, so the enumeration never emits an inactive parameter. Once the grid is
/// exhausted it wraps around, which keeps the study loop simple; callers bound the run with a
/// budget.
#[derive(Debug)]
pub struct GridSampler {
    grid: Vec<ParamSet>,
    cursor: usize,
    float_samples: usize,
    built: bool,
}

impl GridSampler {
    /// The grid points, once the grid is built.
    pub closed spec fn points(self) -> Seq<Assignment> {
        models::of(self.grid@)
    }

    /// Whether the grid is built.
    pub closed spec fn ready(self) -> bool {
        self.built
    }

    /// How many grid points have been handed out, wrapping at the size of the grid.
    pub closed spec fn next(self) -> int {
        self.cursor as int
    }

    /// The number of points laid over a continuous float range.
    pub closed spec fn samples(self) -> usize {
        self.float_samples
    }

    /// Whether the sampler hands out `p` and is `after` from then on: the grid is built at the
    /// first call, and its points are handed out in order, over and over.
    pub open spec fn advances<C: Reals>(
        self,
        reals: &C,
        space: SpaceModel,
        p: Assignment,
        after: Self,
    ) -> bool {
        &&& after.ready()
        &&& after.samples() == self.samples()
        &&& self.ready() ==> after.points() == self.points()
        &&& !self.ready() ==> exists|grids: Seq<Seq<ParamModel>>| #[trigger]
            built_from(reals, space, self.samples(), grids, after.points())
        &&& after.points().len() == 0 ==> p == Assignment::empty() && after.next() == 0
        &&& after.points().len() > 0 ==> p == after.points()[self.next()] && after.next() == (
        self.next() + 1) % (after.points().len() as int)
    }

    /// The cursor stays inside a grid that has points, and an unbuilt grid has none.
    pub open spec fn well_formed(self) -> bool {
        &&& self.points().len() > 0 ==> self.next() < self.points().len()
        &&& 0 <= self.next()
        &&& !self.ready() ==> self.points().len() == 0 && self.next() == 0
    }

    #[verifier::type_invariant]
    spec fn cursor_inside(self) -> bool {
        self.well_formed()
    }

    /// A grid sampler laying `float_samples` points over each continuous float range.
    pub fn new(float_samples: usize) -> (g: Self)
        ensures
            g.well_formed(),
            !g.ready(),
            g.samples() == if float_samples == 0 {
                1
            } else {
                float_samples
            },
    {
        GridSampler {
            grid: Vec::new(),
            cursor: 0,
            float_samples: if float_samples == 0 {
                1
            } else {
                float_samples
            },
            built: false,
        }
    }

    /// Total number of grid points (0 until the first `suggest` builds it).
    pub fn len(&self) -> (n: usize)
        ensures
            n == self.points().len(),
    {
        self.grid.len()
    }

    /// Whether the built grid is empty.
    pub fn is_empty(&self) -> (r: bool)
        ensures
            r == (self.points().len() == 0),
    {
        self.grid.len() == 0
    }

    /// The grid of each definition, float ranges laid out by `reals`.
    pub fn axis_grids<C: Reals>(
        space: &SearchSpace,
        float_samples: usize,
        reals: &C,
    ) -> (grids: Vec<Vec<ParamValue>>)
        requires
            gridable_space(space@),
        ensures
            are_grids(reals, space@, float_samples, grid_models(grids@)),
            valid_dists(space@) ==> grids_fit(space@, grid_models(grids@)),
    {
        let mut grids: Vec<Vec<ParamValue>> = Vec::new();
        let defs = space.params();
        let mut i: usize = 0;
        while i < defs.len()
            invariant
                i <= space@.len(),
                defs@.len() == space@.len(),
                grids@.len() == i,
                forall|k: int| 0 <= k < defs@.len() ==> (#[trigger] defs@[k])@ == space@[k],
                gridable_space(space@),
                valid_dists(space@) ==> forall|j: int, k: int|
                    0 <= j < i && 0 <= k < grid_models(grids@)[j].len() ==> space@[j].dist.fits(
                        #[trigger] grid_models(grids@)[j][k],
                    ),
                forall|j: int|
                    0 <= j < i ==> distribution::is_grid(
                        reals,
                        (#[trigger] space@[j]).dist,
                        float_samples,
                        grid_models(grids@)[j],
                    ),
            decreases defs@.len() - i,
        {
            let ghost before = grids@;
            let g = defs[i].distribution.grid_values(float_samples, reals);
            proof {
                assert(defs@[i as int]@ == space@[i as int]);
            }
            grids.push(g);
            proof {
                assert(forall|j: int|
                    0 <= j < i ==> grid_models(grids@)[j] == grid_models(before)[j]);
                assert(grid_models(grids@)[i as int] == models::of(g@));
                assert forall|j: int, k: int|
                    valid_dists(space@) && 0 <= j < i + 1 && 0 <= k < grid_models(
                        grids@,
                    )[j].len() implies space@[j].dist.fits(
                    #[trigger] grid_models(grids@)[j][k],
                ) by {
                    if j < i {
                        assert(grid_models(before)[j][k] == grid_models(grids@)[j][k]);
                    } else {
                        assert(grid_models(grids@)[j][k] == g@[k]@);
                    }
                }
            }
            i += 1;
        }
        grids
    }

    /// Enumerate the conditional Cartesian product of the given grids, one per definition.
    pub fn expand(space: &SearchSpace, grids: &Vec<Vec<ParamValue>>) -> (acc: Vec<ParamSet>)
        requires
            grids@.len() == space@.len(),
        ensures
            models::of(acc@) == product(space@, grid_models(grids@), space@.len()),
    {
        let mut acc: Vec<ParamSet> = Vec::new();
        acc.push(ParamSet::new());
        let defs = space.params();
        let mut i: usize = 0;
        let ghost gm = grid_models(grids@);
        proof {
            assert(models::of(acc@) =~= product(space@, gm, 0));
        }
        while i < defs.len()
            invariant
                i <= space@.len(),
                defs@.len() == space@.len(),
                grids@.len() == space@.len(),
                gm == grid_models(grids@),
                forall|k: int| 0 <= k < defs@.len() ==> (#[trigger] defs@[k])@ == space@[k],
                models::of(acc@) == product(space@, gm, i as nat),
            decreases defs@.len() - i,
        {
            acc = Self::expand_def(&defs[i], &acc, &grids[i]);
            proof {
                assert(gm[i as int] == models::of(grids@[i as int]@));
                assert(defs@[i as int]@ == space@[i as int]);
            }
            i += 1;
        }
        acc
    }

    /// The next point of the grid, which the first call builds. A grid can be laid over more
    /// spaces than can be drawn from.
    pub fn advance<C: Reals>(&mut self, space: &SearchSpace, reals: &C) -> (p: ParamSet)
        requires
            gridable_space(space@),
        ensures
            old(self).advances(reals, space@, p@, *final(self)),
    {
        proof {
            use_type_invariant(&*self);
        }
        let mut grid: Vec<ParamSet> = Vec::new();
        let mut cursor: usize = self.cursor;
        if !self.built {
            let grids = Self::axis_grids(space, self.float_samples, reals);
            grid = Self::expand(space, &grids);
            proof {
                assert(built_from(
                    reals,
                    space@,
                    self.samples(),
                    grid_models(grids@),
                    models::of(grid@),
                ));
            }
        } else {
            std::mem::swap(&mut grid, &mut self.grid);
        }
        if grid.len() == 0 {
            let samples = self.float_samples;
            *self = GridSampler { grid, cursor: 0, float_samples: samples, built: true };
            return ParamSet::new();
        }
        let point = grid[cursor].clone();
        let next: usize = if cursor + 1 == grid.len() {
            0
        } else {
            cursor + 1
        };
        proof {
            let n = grid@.len() as int;
            if cursor + 1 < n {
                vstd::arithmetic::div_mod::lemma_small_mod((cursor + 1) as nat, n as nat);
            } else {
                vstd::arithmetic::div_mod::lemma_mod_self_0(n);
            }
        }
        let samples = self.float_samples;
        *self = GridSampler { grid, cursor: next, float_samples: samples, built: true };
        point
    }

    fn expand_def(def: &ParamDef, acc: &Vec<ParamSet>, grid: &Vec<ParamValue>) -> (next: Vec<
        ParamSet,
    >)
        ensures
            models::of(next@) == extend_all(models::of(acc@), def@, models::of(grid@)),
    {
        let mut next: Vec<ParamSet> = Vec::new();
        let mut j: usize = 0;
        let ghost partials = models::of(acc@);
        proof {
            assert(models::of(next@) =~= extend_all(
                partials.take(0),
                def@,
                models::of(grid@),
            ));
        }
        while j < acc.len()
            invariant
                j <= acc@.len(),
                partials == models::of(acc@),
                models::of(next@) == extend_all(
                    partials.take(j as int),
                    def@,
                    models::of(grid@),
                ),
            decreases acc@.len() - j,
        {
            let ghost head = models::of(next@);
            let ghost p = acc@[j as int]@;
            proof {
                assert(partials.take(j + 1).drop_last() =~= partials.take(j as int));
                assert(partials.take(j + 1).last() == p);
            }
            if !SearchSpace::is_active(def, &acc[j]) {
                next.push(acc[j].clone());
                proof {
                    assert(models::of(next@) =~= head + seq![p]);
                }
            } else {
                let mut k: usize = 0;
                let ghost tail = extend_one(p, def@, models::of(grid@));
                proof {
                    assert(models::of(next@) =~= head + tail.take(0));
                }
                while k < grid.len()
                    invariant
                        k <= grid@.len(),
                        j < acc@.len(),
                        p == acc@[j as int]@,
                        def@.active(p),
                        tail == extend_one(p, def@, models::of(grid@)),
                        models::of(next@) == head + tail.take(k as int),
                    decreases grid@.len() - k,
                {
                    let ghost before = next@;
                    let mut extended = acc[j].clone();
                    extended.insert(def.name.as_str(), grid[k].clone());
                    next.push(extended);
                    proof {
                        assert(models::of(next@) =~= models::of(before).push(tail[k as int]));
                        assert(tail.take(k + 1) =~= tail.take(k as int).push(tail[k as int]));
                        assert(models::of(next@) =~= head + tail.take(k + 1));
                    }
                    k += 1;
                }
                proof {
                    assert(tail.take(k as int) =~= tail);
                }
            }
            j += 1;
        }
        proof {
            assert(partials.take(j as int) =~= partials);
        }
        next
    }
}

impl Named for GridSampler {
    open spec fn label(&self) -> Seq<char> {
        "grid"@
    }

    fn name(&self) -> (r: &'static str) {
        "grid"
    }
}

impl<C: Reals> Sampler<C> for GridSampler {
    open spec fn proposes(
        &self,
        reals: &C,
        space: SpaceModel,
        history: HistoryModel,
        p: Assignment,
        after: Self,
    ) -> bool {
        self.advances(reals, space, p, after)
    }

    open spec fn observes(&self, trial: TrialModel, after: Self) -> bool {
        after == *self
    }

    fn suggest(
        &mut self,
        space: &SearchSpace,
        history: &TrialHistory,
        reals: &C,
    ) -> (p: ParamSet) {
        proof {
            assert forall|i: int| 0 <= i < space@.len() implies (
            #[trigger] space@[i]).dist.gridable() by {
                assert(space@[i].dist.drawable());
            }
        }
        self.advance(space, reals)
    }

    fn on_trial_complete(&mut self, trial: &TrialRecord) {
    }
}

/// The number of ways to choose one value from each of the first `n` grids.
pub open spec fn choices(grids: Seq<Seq<ParamModel>>, n: nat) -> int
    decreases n,
{
    if n == 0 {
        1
    } else {
        choices(grids, (n - 1) as nat) * grids[n - 1].len()
    }
}

proof fn extensions_multiply(
    partials: Seq<Assignment>,
    def: DefModel,
    grid: Seq<ParamModel>,
)
    requires
        def.condition is None,
    ensures
        extend_all(partials, def, grid).len() == partials.len() * grid.len(),
    decreases partials.len(),
{
    if partials.len() > 0 {
        extensions_multiply(partials.drop_last(), def, grid);
        let (m, k) = (partials.len() as int, grid.len() as int);
        assert((m - 1) * k + k == m * k) by (nonlinear_arith);
    } else {
        assert(0 * grid.len() == 0) by (nonlinear_arith);
    }
}

/// Without conditions, a grid has one point for every choice of a value per parameter.
pub proof fn law_flat_grid_multiplies(
    defs: SpaceModel,
    grids: Seq<Seq<ParamModel>>,
    n: nat,
)
    requires
        n <= defs.len(),
        forall|i: int| 0 <= i < n ==> (#[trigger] defs[i]).condition is None,
    ensures
        product(defs, grids, n).len() == choices(grids, n),
    decreases n,
{
    if n > 0 {
        law_flat_grid_multiplies(defs, grids, (n - 1) as nat);
        extensions_multiply(product(defs, grids, (n - 1) as nat), defs[n - 1], grids[n - 1]);
    }
}

/// A deterministic per-trial generator derived from the trial's own seed (e.g. for weight
/// initialization), so samplers and objectives derive generators the same way.
pub fn trial_rng(seed: u64) -> (r: TrialRng)
    ensures
        r == (TrialRng { seed, word: 0 }),
{
    TrialRng::new(seed)
}

proof fn walks_keep_names<C: Reals>(
    reals: &C,
    defs: SpaceModel,
    n: nat,
    rng: TrialRng,
    a: Assignment,
    after: TrialRng,
    i: int,
) -> (r: (TrialRng, TrialRng))
    requires
        is_walked(reals, defs, n, rng, a, after),
        space::space_ordered(defs),
        n <= defs.len(),
        0 <= i < defs.len(),
    ensures
        n <= i ==> !a.contains_key(defs[i].name),
        a.contains_key(defs[i].name) ==> distribution::is_draw(
            reals,
            defs[i].dist,
            r.0,
            a[defs[i].name],
            r.1,
        ),
    decreases n,
{
    if n == 0 {
        (rng, rng)
    } else {
        let before = choose|before: (Assignment, TrialRng)|
            is_walked(reals, defs, (n - 1) as nat, rng, before.0, before.1)
                && #[trigger] draws_next(reals, defs[n - 1], before, (a, after));
        let r = walks_keep_names(reals, defs, (n - 1) as nat, rng, before.0, before.1, i);
        assert(space::def_ordered(defs, i));
        assert(space::def_ordered(defs, n - 1));
        if i == n - 1 {
            (before.1, after)
        } else {
            assert(defs[n - 1].name != defs[i].name) by {
                if defs[n - 1].name == defs[i].name {
                    if n - 1 < i {
                        assert(space::declared_before(defs, i, defs[i].name));
                    } else {
                        assert(space::declared_before(defs, n - 1, defs[n - 1].name));
                    }
                }
            }
            r
        }
    }
}

/// Random sampling draws each parameter from its own distribution.
pub proof fn law_parameters_are_drawn_from_their_distributions<C: Reals>(
    reals: &C,
    defs: SpaceModel,
    seed: u64,
    trials: int,
    p: Assignment,
    i: int,
)
    requires
        suggests_at_random(reals, defs, seed, trials, p),
        space::space_ordered(defs),
        0 <= i < defs.len(),
        p.contains_key(defs[i].name),
    ensures
        exists|rng: TrialRng, after: TrialRng| #[trigger]
            distribution::is_draw(reals, defs[i].dist, rng, p[defs[i].name], after),
{
    let rng = TrialRng { seed: suggestion_seed(seed, trials), word: 0 };
    let after = choose|after: TrialRng| #[trigger]
        is_walked(reals, defs, defs.len(), rng, p, after);
    let r = walks_keep_names(reals, defs, defs.len(), rng, p, after, i);
}

/// No two suggestions of a sampler share their stream: after different numbers of trials the seeds
/// differ.
pub proof fn law_suggestions_have_streams_of_their_own(seed: u64, a: u64, b: u64)
    requires
        a != b,
    ensures
        suggestion_seed(seed, a as int) != suggestion_seed(seed, b as int),
{
    let (x, y) = (a.wrapping_mul(GOLDEN), b.wrapping_mul(GOLDEN));
    if x == y {
        multiples_tell_apart(a as int, b as int);
    }
    assert(x != y ==> seed ^ x != seed ^ y) by (bit_vector);
}

/// Multiples of the golden ratio tell numbers apart.
pub proof fn multiples_tell_apart(a: int, b: int)
    requires
        0 <= a < 0x1_0000_0000_0000_0000,
        0 <= b < 0x1_0000_0000_0000_0000,
        (a * GOLDEN) % 0x1_0000_0000_0000_0000 == (b * GOLDEN) % 0x1_0000_0000_0000_0000,
    ensures
        a == b,
{
    let m: int = 0x1_0000_0000_0000_0000;
    let back: int = 0xf1de_83e1_9937_733d;
    let over: int = 10771413168148108919;
    let g = GOLDEN as int;
    assert(g * back == 1 + over * m);
    vstd::arithmetic::div_mod::lemma_mul_mod_noop_left(a * g, back, m);
    vstd::arithmetic::div_mod::lemma_mul_mod_noop_left(b * g, back, m);
    assert(a * g * back == m * (a * over) + a) by (nonlinear_arith)
        requires
            g * back == 1 + over * m,
    ;
    assert(b * g * back == m * (b * over) + b) by (nonlinear_arith)
        requires
            g * back == 1 + over * m,
    ;
    vstd::arithmetic::div_mod::lemma_mod_multiples_vanish(a * over, a, m);
    vstd::arithmetic::div_mod::lemma_mod_multiples_vanish(b * over, b, m);
    vstd::arithmetic::div_mod::lemma_small_mod(a as nat, m as nat);
    vstd::arithmetic::div_mod::lemma_small_mod(b as nat, m as nat);
}

/// A round of a grid search visits every point of the grid once, in order, and is then back where
/// it began.
pub proof fn law_a_round_visits_every_point<C: Reals>(
    reals: &C,
    space: SpaceModel,
    samplers: Seq<GridSampler>,
    proposed: Seq<Assignment>,
)
    requires
        samplers.len() == proposed.len() + 1,
        proposed.len() > 0,
        !samplers[0].ready(),
        samplers[0].well_formed(),
        forall|i: int|
            0 <= i < proposed.len() ==> samplers[i].advances(
                reals,
                space,
                #[trigger] proposed[i],
                samplers[i + 1],
            ),
        samplers[1].points().len() == proposed.len(),
    ensures
        proposed == samplers[1].points(),
        samplers.last().points() == samplers[1].points(),
        samplers.last().next() == 0,
{
    assert(samplers[0].advances(reals, space, proposed[0], samplers[1]));
    let n = proposed.len() as int;
    grid_goes_on(reals, space, samplers, proposed, n);
    assert forall|i: int| 0 <= i < n implies #[trigger] proposed[i] == samplers[1].points()[i] by {
        grid_goes_on(reals, space, samplers, proposed, i);
        assert(samplers[i].advances(reals, space, proposed[i], samplers[i + 1]));
        vstd::arithmetic::div_mod::lemma_small_mod(i as nat, n as nat);
    }
    vstd::arithmetic::div_mod::lemma_mod_self_0(n);
    assert(proposed =~= samplers[1].points());
}

proof fn grid_goes_on<C: Reals>(
    reals: &C,
    space: SpaceModel,
    samplers: Seq<GridSampler>,
    proposed: Seq<Assignment>,
    k: int,
)
    requires
        samplers.len() == proposed.len() + 1,
        0 <= k <= proposed.len(),
        proposed.len() > 0,
        !samplers[0].ready(),
        samplers[0].well_formed(),
        forall|i: int|
            0 <= i < proposed.len() ==> samplers[i].advances(
                reals,
                space,
                #[trigger] proposed[i],
                samplers[i + 1],
            ),
        samplers[1].points().len() == proposed.len(),
    ensures
        samplers[k].next() == k % (proposed.len() as int),
        k > 0 ==> samplers[k].ready() && samplers[k].points() == samplers[1].points(),
    decreases k,
{
    let n = proposed.len() as int;
    if k > 0 {
        grid_goes_on(reals, space, samplers, proposed, k - 1);
        assert(samplers[k - 1].advances(reals, space, proposed[k - 1], samplers[k - 1 + 1]));
        vstd::arithmetic::div_mod::lemma_small_mod((k - 1) as nat, n as nat);
    } else {
        vstd::arithmetic::div_mod::lemma_small_mod(0, n as nat);
    }
}

} // verus!
