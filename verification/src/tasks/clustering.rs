//! Clustering: K-means with the number of clusters searched against the mean silhouette.

use vstd::prelude::*;
use crate::distribution::{DistModel, Distribution};
use crate::error::Error;
use crate::memory::InMemoryStorage;
use crate::metrics::{Direction, NamedMetrics};
#[allow(unused_imports)]
use crate::objective::{Objective, Outcome, ReportLog, ReportSink};
#[allow(unused_imports)]
use crate::param::Assignment;
use crate::param::ParamSet;
use crate::pareto::clone_scalars;
use crate::pruner::NoPruner;
use crate::reals::Reals;
use crate::rng::TrialRng;
use crate::sampler::GridSampler;
use crate::scalar::Scalar;
use crate::space::SearchSpace;
use crate::study::Study;
use crate::tasks::vectors::{center_of, first_least, is_reaching, least_number, Vectors};
#[allow(unused_imports)]
use crate::run::Bench;
#[allow(unused_imports)]
use crate::trial::{Metrics, TrialModel};
#[allow(unused_imports)]
use crate::models;
#[allow(unused_imports)]
use crate::objective;
#[allow(unused_imports)]
use crate::order;
#[allow(unused_imports)]
use crate::param;
#[allow(unused_imports)]
use crate::run;
#[allow(unused_imports)]
use crate::space;
#[allow(unused_imports)]
use crate::tasks::vectors;

verus! {

/// The least number of clusters that a search considers.
pub const MIN_CLUSTERS: usize = 2;

/// The most rounds of a restart.
pub const ROUNDS: usize = 50;

/// The result of clustering a dataset.
#[derive(Debug)]
pub struct Clustering {
    /// Cluster index per input point.
    pub assignments: Vec<usize>,
    /// Cluster centroids.
    pub centroids: Vec<Vec<Scalar>>,
    /// Sum of squared distances to the nearest centroid.
    pub inertia: Scalar,
}

/// Selects the points of a cluster.
pub open spec fn in_cluster(c: usize) -> spec_fn((usize, usize)) -> Option<usize> {
    |p: (usize, usize)|
        if p.1 == c {
            Some(p.0)
        } else {
            None
        }
}

/// The points with their clusters.
pub open spec fn numbered(assignments: Seq<usize>) -> Seq<(usize, usize)> {
    Seq::new(assignments.len(), |i: int| (i as usize, assignments[i]))
}

/// The points of a cluster, in order.
pub open spec fn cluster(assignments: Seq<usize>, c: usize) -> Seq<usize> {
    models::pick(numbered(assignments), in_cluster(c))
}

/// The points of a cluster, in order.
pub fn members(assignments: &Vec<usize>, c: usize) -> (r: Vec<usize>)
    ensures
        r@ == cluster(assignments@, c),
        forall|k: int| 0 <= k < r@.len() ==> (#[trigger] r@[k]) < assignments@.len(),
{
    let mut out: Vec<usize> = Vec::new();
    let ghost all = numbered(assignments@);
    let ghost f = in_cluster(c);
    let mut i: usize = 0;
    proof {
        assert(all.take(0).len() == 0);
    }
    while i < assignments.len()
        invariant
            i <= assignments@.len(),
            all == numbered(assignments@),
            f == in_cluster(c),
            out@ == models::pick(all.take(i as int), f),
            forall|k: int| 0 <= k < out@.len() ==> (#[trigger] out@[k]) < assignments@.len(),
        decreases assignments@.len() - i,
    {
        proof {
            models::pick_step(all, i as int, f);
            assert(all[i as int] == (i, assignments@[i as int]));
        }
        if assignments[i] == c {
            out.push(i);
        }
        i += 1;
    }
    proof {
        models::pick_whole(all, f);
    }
    out
}

/// Every point belongs to its own cluster.
pub proof fn law_point_is_in_its_cluster(assignments: Seq<usize>, i: int)
    requires
        0 <= i < assignments.len(),
        i <= usize::MAX,
    ensures
        cluster(assignments, assignments[i]).contains(i as usize),
{
    let all = numbered(assignments);
    let k = models::pick_holds(all, in_cluster(assignments[i]), i);
    assert(cluster(assignments, assignments[i])[k] == i as usize);
}

/// The squared distances of a point to centroids.
fn distances<V: Vectors>(point: &Vec<Scalar>, centroids: &Vec<Vec<Scalar>>, vectors: &V) -> (d:
    Vec<Scalar>)
    ensures
        vectors::are_distances2(vectors, *point, centroids@, d@),
{
    let mut d: Vec<Scalar> = Vec::new();
    let mut c: usize = 0;
    while c < centroids.len()
        invariant
            c <= centroids@.len(),
            d@.len() == c,
            forall|x: int|
                0 <= x < c ==> vectors::is_distance2(
                    vectors,
                    *point,
                    centroids@[x],
                    #[trigger] d@[x],
                ),
        decreases centroids@.len() - c,
    {
        d.push(vectors.distance2(point, &centroids[c]));
        c += 1;
    }
    d
}

/// Whether a remainder is used up.
pub open spec fn used_up(x: Scalar) -> bool {
    !x.nan() && x.key() <= 0
}

/// Whether `i` is the first remainder that is used up, or the last one if none is before it.
pub open spec fn is_spent(rest: Seq<Scalar>, i: int) -> bool {
    &&& 0 <= i < rest.len()
    &&& forall|k: int| 0 <= k < i ==> !used_up(#[trigger] rest[k])
    &&& used_up(rest[i]) || i == rest.len() - 1
}

/// The first remainder that is used up, or the last one: a draw by weight ends at the point whose
/// weight uses up what is left of a lot.
pub fn first_spent(rest: &Vec<Scalar>) -> (i: usize)
    requires
        rest@.len() > 0,
    ensures
        is_spent(rest@, i as int),
{
    let mut i: usize = 0;
    while i < rest.len() - 1 && !rest[i].le(&Scalar::zero())
        invariant
            i < rest@.len(),
            forall|k: int| 0 <= k < i ==> !used_up(#[trigger] rest@[k]),
        decreases rest@.len() - i,
    {
        i += 1;
    }
    i
}

/// Whether `x` is one of the points.
pub open spec fn is_point(points: Seq<Vec<Scalar>>, x: Seq<Scalar>) -> bool {
    exists|i: int| 0 <= i < points.len() && (#[trigger] points[i])@ == x
}

/// Whether `near` are the squared distances of points to the nearest of some centroids.
pub open spec fn are_near<V: Vectors>(
    vectors: &V,
    points: Seq<Vec<Scalar>>,
    centroids: Seq<Vec<Scalar>>,
    near: Seq<Scalar>,
) -> bool {
    &&& near.len() == points.len()
    &&& forall|i: int|
        0 <= i < near.len() ==> is_near(vectors, points[i], centroids, #[trigger] near[i])
}

/// Whether `x` is the squared distance of a point to the nearest of some centroids.
pub open spec fn is_near<V: Vectors>(
    vectors: &V,
    point: Vec<Scalar>,
    centroids: Seq<Vec<Scalar>>,
    x: Scalar,
) -> bool {
    exists|d: Seq<Scalar>| #[trigger]
        vectors::are_distances2(vectors, point, centroids, d) && vectors::is_least_number(d, x)
}

/// Whether `rest` is what is left of a lot after each of some weights is taken from it.
pub open spec fn are_rests<V: Vectors>(
    vectors: &V,
    lot: Scalar,
    near: Seq<Scalar>,
    rest: Seq<Scalar>,
) -> bool {
    &&& rest.len() <= near.len()
    &&& forall|i: int|
        0 <= i < rest.len() ==> vectors::is_minus(
            vectors,
            if i == 0 {
                lot
            } else {
                rest[i - 1]
            },
            near[i],
            #[trigger] rest[i],
        )
}

/// Whether point `pick` is drawn at `rng` by weight, with `after` the position behind it: where
/// the weights use up a lot of their sum, or any point where they sum up to nothing.
pub open spec fn is_weighted_pick<V: Vectors>(
    vectors: &V,
    near: Seq<Scalar>,
    rng: TrialRng,
    pick: int,
    after: TrialRng,
) -> bool {
    exists|sum: Scalar| #[trigger]
        vectors::is_total(vectors, near, sum) && if used_up(sum) {
            pick == rng.pick(near.len() as u64) && after == rng.past_pick(near.len() as u64)
        } else {
            exists|lot: Scalar, rest: Seq<Scalar>| #[trigger]
                vectors::is_lot(vectors, sum, rng, lot, after) && #[trigger] are_rests(
                    vectors,
                    lot,
                    near,
                    rest,
                ) && rest.len() == near.len() && is_spent(rest, pick)
        }
}

/// Whether point `pick` is drawn at `rng` for the next centroid: likelier the farther it lies from
/// the centroids so far.
pub open spec fn is_next_seed<V: Vectors>(
    vectors: &V,
    points: Seq<Vec<Scalar>>,
    centroids: Seq<Vec<Scalar>>,
    rng: TrialRng,
    pick: int,
    after: TrialRng,
) -> bool {
    exists|near: Seq<Scalar>| #[trigger]
        are_near(vectors, points, centroids, near) && is_weighted_pick(
            vectors,
            near,
            rng,
            pick,
            after,
        )
}

/// Whether centroids are drawn one after the other, and lead from one position to another: the
/// first is any point, each further one likelier the farther it lies from those before it.
pub open spec fn are_seeds<V: Vectors>(
    vectors: &V,
    points: Seq<Vec<Scalar>>,
    centroids: Seq<Vec<Scalar>>,
    from: TrialRng,
    to: TrialRng,
) -> bool
    decreases centroids.len(),
{
    let n = points.len() as u64;
    if centroids.len() <= 1 {
        centroids.len() == 1 && centroids[0]@ == points[from.pick(n) as int]@ && to
            == from.past_pick(n)
    } else {
        exists|then: TrialRng, pick: int|
            are_seeds(vectors, points, centroids.drop_last(), from, then)
                && #[trigger] is_next_seed(
                vectors,
                points,
                centroids.drop_last(),
                then,
                pick,
                to,
            ) && 0 <= pick < points.len() && centroids.last()@ == points[pick]@
    }
}

/// Draws the first centroids: a point at random, then points likelier the farther they lie from
/// the centroids so far.
fn seeds<V: Vectors>(points: &Vec<Vec<Scalar>>, k: usize, rng: &mut TrialRng, vectors: &V) -> (
centroids: Vec<Vec<Scalar>>)
    requires
        points@.len() > 0,
        k >= 1,
        vectors::reaching(points@, points@[0]@.len() as int),
    ensures
        centroids@.len() == k,
        vectors::reaching(centroids@, points@[0]@.len() as int),
        forall|c: int| 0 <= c < centroids@.len() ==> is_point(points@, #[trigger] centroids@[c]@),
        are_seeds(vectors, points@, centroids@, *old(rng), *final(rng)),
{
    let n = points.len();
    let ghost dim = points@[0]@.len() as int;
    let mut centroids: Vec<Vec<Scalar>> = Vec::new();
    let first = rng.below(n as u64) as usize;
    centroids.push(clone_scalars(&points[first]));
    proof {
        assert(points@[first as int]@ == centroids@[0]@);
    }
    while centroids.len() < k
        invariant
            forall|c: int|
                0 <= c < centroids@.len() ==> is_point(points@, #[trigger] centroids@[c]@),
            n == points@.len(),
            n > 0,
            k >= 1,
            1 <= centroids@.len() <= k,
            vectors::reaching(points@, dim),
            vectors::reaching(centroids@, dim),
            are_seeds(vectors, points@, centroids@, *old(rng), *rng),
        decreases k - centroids@.len(),
    {
        let ghost then = *rng;
        let mut near: Vec<Scalar> = Vec::new();
        let mut i: usize = 0;
        while i < n
            invariant
                i <= n,
                n == points@.len(),
                centroids@.len() >= 1,
                near@.len() == i,
                forall|x: int|
                    0 <= x < i ==> is_near(
                        vectors,
                        points@[x],
                        centroids@,
                        #[trigger] near@[x],
                    ),
            decreases n - i,
        {
            let d = distances(&points[i], &centroids, vectors);
            let least = least_number(&d);
            proof {
                assert(is_near(vectors, points@[i as int], centroids@, least));
            }
            near.push(least);
            i += 1;
        }
        let sum = vectors.total(&near);
        proof {
            assert(are_near(vectors, points@, centroids@, near@));
            assert(vectors::is_total(vectors, near@, sum));
        }
        let pick: usize = if sum.le(&Scalar::zero()) {
            rng.below(n as u64) as usize
        } else {
            let (lot, after) = vectors.lot(sum, *rng);
            *rng = after;
            let mut left = lot;
            let mut rest: Vec<Scalar> = Vec::new();
            while rest.len() < n
                invariant
                    rest@.len() <= n,
                    near@.len() == n,
                    left == (if rest@.len() == 0 {
                        lot
                    } else {
                        rest@.last()
                    }),
                    are_rests(vectors, lot, near@, rest@),
                decreases n - rest@.len(),
            {
                let i = rest.len();
                let ghost was = rest@;
                let ghost over = left;
                left = vectors.minus(left, near[i]);
                rest.push(left);
                proof {
                    assert forall|x: int| 0 <= x < rest@.len() implies vectors::is_minus(
                        vectors,
                        if x == 0 {
                            lot
                        } else {
                            rest@[x - 1]
                        },
                        near@[x],
                        #[trigger] rest@[x],
                    ) by {
                        if x < i {
                            assert(rest@[x] == was[x]);
                        } else {
                            assert(vectors::is_minus(vectors, over, near@[x], rest@[x]));
                        }
                    }
                }
            }
            proof {
                assert(vectors::is_lot(vectors, sum, then, lot, after));
                assert(are_rests(vectors, lot, near@, rest@));
            }
            first_spent(&rest)
        };
        proof {
            assert(is_weighted_pick(vectors, near@, then, pick as int, *rng));
            assert(is_next_seed(vectors, points@, centroids@, then, pick as int, *rng));
        }
        let ghost before = centroids@;
        centroids.push(clone_scalars(&points[pick]));
        proof {
            assert(points@[pick as int]@ == centroids@[before.len() as int]@);
            assert forall|c: int| 0 <= c < centroids@.len() implies is_point(
                points@,
                #[trigger] centroids@[c]@,
            ) by {
                if c < before.len() {
                    assert(centroids@[c] == before[c]);
                }
            }
            assert(centroids@.drop_last() =~= before);
            assert(is_next_seed(
                vectors,
                points@,
                centroids@.drop_last(),
                then,
                pick as int,
                *rng,
            ));
        }
    }
    centroids
}

/// Whether a centroid has moved to the mean of its points in their first `d` numbers.
pub open spec fn is_moved<V: Vectors>(
    vectors: &V,
    points: Seq<Vec<Scalar>>,
    own: Seq<usize>,
    d: int,
    before: Seq<Scalar>,
    after: Seq<Scalar>,
) -> bool {
    exists|center: Seq<Scalar>| #[trigger]
        vectors::is_center(vectors, points, own, d, center) && after == center + before.skip(d)
}

/// Moves each centroid with points to the mean of its points, in as many numbers as the first
/// point has.
fn recenter<V: Vectors>(
    points: &Vec<Vec<Scalar>>,
    assignments: &Vec<usize>,
    centroids: &mut Vec<Vec<Scalar>>,
    vectors: &V,
)
    requires
        points@.len() > 0,
        assignments@.len() == points@.len(),
        vectors::reaching(points@, points@[0]@.len() as int),
        vectors::reaching(old(centroids)@, points@[0]@.len() as int),
    ensures
        final(centroids)@.len() == old(centroids)@.len(),
        vectors::reaching(final(centroids)@, points@[0]@.len() as int),
        forall|c: int|
            0 <= c < old(centroids)@.len() && cluster(assignments@, c as usize).len() == 0
                ==> #[trigger] final(centroids)@[c] == old(centroids)@[c],
        forall|c: int|
            0 <= c < old(centroids)@.len() && cluster(assignments@, c as usize).len() > 0
                ==> is_moved(
                vectors,
                points@,
                cluster(assignments@, c as usize),
                points@[0]@.len() as int,
                old(centroids)@[c]@,
                #[trigger] final(centroids)@[c]@,
            ),
{
    let dim = points[0].len();
    let mut c: usize = 0;
    while c < centroids.len()
        invariant
            c <= centroids@.len(),
            centroids@.len() == old(centroids)@.len(),
            dim == points@[0]@.len(),
            assignments@.len() == points@.len(),
            vectors::reaching(points@, dim as int),
            vectors::reaching(centroids@, dim as int),
            forall|x: int| c <= x < centroids@.len() ==> #[trigger] centroids@[x] == old(centroids)@[x],
            forall|x: int|
                0 <= x < c && cluster(assignments@, x as usize).len() == 0
                    ==> #[trigger] centroids@[x] == old(centroids)@[x],
            forall|x: int|
                0 <= x < c && cluster(assignments@, x as usize).len() > 0 ==> is_moved(
                    vectors,
                    points@,
                    cluster(assignments@, x as usize),
                    dim as int,
                    old(centroids)@[x]@,
                    #[trigger] centroids@[x]@,
                ),
        decreases centroids@.len() - c,
    {
        let own = members(assignments, c);
        if own.len() > 0 {
            let mut moved = center_of(points, &own, dim, vectors);
            let ghost center = moved@;
            let ghost rest = centroids@[c as int]@.skip(dim as int);
            let mut j = dim;
            while j < centroids[c].len()
                invariant
                    c < centroids@.len(),
                    dim <= j <= centroids@[c as int]@.len(),
                    center.len() == dim,
                    rest == centroids@[c as int]@.skip(dim as int),
                    moved@ == center + rest.take(j - dim),
                decreases centroids@[c as int]@.len() - j,
            {
                moved.push(centroids[c][j]);
                proof {
                    assert(rest.take(j + 1 - dim) =~= rest.take(j - dim).push(rest[j - dim]));
                }
                j += 1;
            }
            proof {
                assert(rest.take(j - dim) =~= rest);
                assert(is_moved(
                    vectors,
                    points@,
                    cluster(assignments@, c),
                    dim as int,
                    centroids@[c as int]@,
                    moved@,
                ));
            }
            centroids.set(c, moved);
        }
        c += 1;
    }
}

/// Whether `c` is the nearest of some centroids to a point: the first at the least distance.
pub open spec fn is_nearest<V: Vectors>(
    vectors: &V,
    point: Vec<Scalar>,
    centroids: Seq<Vec<Scalar>>,
    c: int,
) -> bool {
    exists|d: Seq<Scalar>| #[trigger]
        vectors::are_distances2(vectors, point, centroids, d) && 0 <= c < d.len() && c
            == vectors::least_met(d)
}

/// Whether a round of K-means leads from centroids to assignments and new centroids: each point
/// goes to the nearest centroid, and each centroid with points to the mean of its points.
pub open spec fn is_round<V: Vectors>(
    vectors: &V,
    points: Seq<Vec<Scalar>>,
    before: Seq<Vec<Scalar>>,
    assignments: Seq<usize>,
    after: Seq<Vec<Scalar>>,
) -> bool {
    &&& assignments.len() == points.len()
    &&& after.len() == before.len()
    &&& forall|i: int|
        0 <= i < points.len() ==> is_nearest(
            vectors,
            points[i],
            before,
            #[trigger] assignments[i] as int,
        )
    &&& forall|c: int|
        0 <= c < after.len() && cluster(assignments, c as usize).len() == 0
            ==> #[trigger] after[c] == before[c]
    &&& forall|c: int|
        0 <= c < after.len() && cluster(assignments, c as usize).len() > 0 ==> is_moved(
            vectors,
            points,
            cluster(assignments, c as usize),
            points[0]@.len() as int,
            before[c]@,
            #[trigger] after[c]@,
        )
}

/// Whether `n` rounds lead from first centroids to assignments and centroids; all points are in
/// the first cluster before there was a round.
pub open spec fn are_rounds<V: Vectors>(
    vectors: &V,
    points: Seq<Vec<Scalar>>,
    start: Seq<Vec<Scalar>>,
    n: nat,
    assignments: Seq<usize>,
    centroids: Seq<Vec<Scalar>>,
) -> bool
    decreases n,
{
    if n == 0 {
        centroids == start && assignments == Seq::new(points.len(), |i: int| 0usize)
    } else {
        exists|before: (Seq<usize>, Seq<Vec<Scalar>>)|
            are_rounds(vectors, points, start, (n - 1) as nat, before.0, before.1)
                && #[trigger] goes_on(vectors, points, before, (assignments, centroids))
    }
}

/// Whether a round leads from assignments and centroids to new ones.
pub open spec fn goes_on<V: Vectors>(
    vectors: &V,
    points: Seq<Vec<Scalar>>,
    before: (Seq<usize>, Seq<Vec<Scalar>>),
    after: (Seq<usize>, Seq<Vec<Scalar>>),
) -> bool {
    is_round(vectors, points, before.1, after.0, after.1)
}

/// Whether rounds went on until one changed nothing, or until there were as many as there may be.
pub open spec fn are_enough_rounds<V: Vectors>(
    vectors: &V,
    points: Seq<Vec<Scalar>>,
    start: Seq<Vec<Scalar>>,
    max_iter: usize,
    assignments: Seq<usize>,
    centroids: Seq<Vec<Scalar>>,
) -> bool {
    ||| are_rounds(vectors, points, start, max_iter as nat, assignments, centroids)
    ||| exists|n: nat, before: Seq<Vec<Scalar>>|
        n < max_iter && #[trigger] are_rounds(vectors, points, start, n, assignments, before)
            && is_round(vectors, points, before, assignments, centroids)
}

/// Whether `inertia` is the sum of the squared distances of points to their centroids.
pub open spec fn is_inertia<V: Vectors>(
    vectors: &V,
    points: Seq<Vec<Scalar>>,
    assignments: Seq<usize>,
    centroids: Seq<Vec<Scalar>>,
    inertia: Scalar,
) -> bool {
    exists|errors: Seq<Scalar>| #[trigger]
        are_errors(vectors, points, assignments, centroids, errors) && vectors::is_total(
            vectors,
            errors,
            inertia,
        )
}

/// Whether `errors` are the squared distances of points to their centroids.
pub open spec fn are_errors<V: Vectors>(
    vectors: &V,
    points: Seq<Vec<Scalar>>,
    assignments: Seq<usize>,
    centroids: Seq<Vec<Scalar>>,
    errors: Seq<Scalar>,
) -> bool {
    &&& errors.len() == points.len()
    &&& forall|i: int|
        0 <= i < points.len() ==> vectors::is_distance2(
            vectors,
            points[i],
            centroids[assignments[i] as int],
            #[trigger] errors[i],
        )
}

/// The number of clusters that `k` stands for among `n` points: at least one, at most one per
/// point.
pub open spec fn clusters_for(k: usize, n: nat) -> int {
    if k < 1 {
        1
    } else if k > n {
        n as int
    } else {
        k as int
    }
}

/// Whether `r` clusters points: from centroids drawn on the stream of `seed`, in rounds.
pub open spec fn is_clustering<V: Vectors>(
    vectors: &V,
    points: Seq<Vec<Scalar>>,
    k: usize,
    seed: u64,
    max_iter: usize,
    r: Clustering,
) -> bool {
    &&& r.assignments@.len() == points.len()
    &&& r.centroids@.len() == clusters_for(k, points.len())
    &&& forall|i: int|
        0 <= i < r.assignments@.len() ==> (#[trigger] r.assignments@[i]) < r.centroids@.len()
    &&& is_inertia(vectors, points, r.assignments@, r.centroids@, r.inertia)
    &&& exists|start: Seq<Vec<Scalar>>, after: TrialRng|
        start.len() == clusters_for(k, points.len()) && #[trigger] are_seeds(
            vectors,
            points,
            start,
            TrialRng { seed, word: 0 },
            after,
        ) && are_enough_rounds(
            vectors,
            points,
            start,
            max_iter,
            r.assignments@,
            r.centroids@,
        )
}

/// K-means clustering with k-means++ initialization, into `k` clusters (at least one, at most
/// one per point). Deterministic given `seed`.
pub fn kmeans<V: Vectors>(
    points: &Vec<Vec<Scalar>>,
    k: usize,
    seed: u64,
    max_iter: usize,
    vectors: &V,
) -> (r: Clustering)
    requires
        points@.len() > 0,
        vectors::reaching(points@, points@[0]@.len() as int),
    ensures
        is_clustering(vectors, points@, k, seed, max_iter, r),
        vectors::reaching(r.centroids@, points@[0]@.len() as int),
{
    let n = points.len();
    let ghost asked = k;
    let k: usize = if k < 1 {
        1
    } else if k > n {
        n
    } else {
        k
    };
    let ghost dim = points@[0]@.len() as int;
    let mut rng = TrialRng::new(seed);
    let mut centroids = seeds(points, k, &mut rng, vectors);
    let ghost start = centroids@;
    let ghost begun = rng;
    let mut assignments: Vec<usize> = Vec::new();
    let mut i: usize = 0;
    while i < n
        invariant
            i <= n,
            assignments@.len() == i,
            forall|x: int| 0 <= x < i ==> #[trigger] assignments@[x] == 0,
        decreases n - i,
    {
        assignments.push(0);
        i += 1;
    }
    let mut round: usize = 0;
    let mut changed = true;
    proof {
        assert(assignments@ =~= Seq::new(points@.len(), |i: int| 0usize));
    }
    while changed && round < max_iter
        invariant
            round <= max_iter,
            n == points@.len(),
            n > 0,
            k >= 1,
            dim == points@[0]@.len(),
            centroids@.len() == k,
            assignments@.len() == n,
            forall|x: int| 0 <= x < n ==> (#[trigger] assignments@[x]) < k,
            vectors::reaching(points@, dim),
            vectors::reaching(centroids@, dim),
            changed ==> are_rounds(
                vectors,
                points@,
                start,
                round as nat,
                assignments@,
                centroids@,
            ),
            !changed ==> are_enough_rounds(
                vectors,
                points@,
                start,
                max_iter,
                assignments@,
                centroids@,
            ),
        decreases max_iter - round,
    {
        changed = false;
        let ghost were = assignments@;
        let mut p: usize = 0;
        while p < n
            invariant
                p <= n,
                were.len() == n,
                !changed ==> assignments@ =~= were,
                n == points@.len(),
                k >= 1,
                centroids@.len() == k,
                assignments@.len() == n,
                forall|x: int| 0 <= x < n ==> (#[trigger] assignments@[x]) < k,
                forall|x: int|
                    0 <= x < p ==> is_nearest(
                        vectors,
                        points@[x],
                        centroids@,
                        #[trigger] assignments@[x] as int,
                    ),
            decreases n - p,
        {
            let d = distances(&points[p], &centroids, vectors);
            let best = first_least(&d);
            proof {
                assert(is_nearest(vectors, points@[p as int], centroids@, best as int));
            }
            if assignments[p] != best {
                assignments.set(p, best);
                changed = true;
            }
            p += 1;
        }
        let ghost before = centroids@;
        recenter(points, &assignments, &mut centroids, vectors);
        proof {
            assert(is_round(vectors, points@, before, assignments@, centroids@));
            assert(are_rounds(vectors, points@, start, round as nat, were, before));
            let next = (round + 1) as nat;
            assert(goes_on(vectors, points@, (were, before), (assignments@, centroids@)));
            assert(are_rounds(vectors, points@, start, next, assignments@, centroids@));
        }
        round += 1;
    }
    let mut errors: Vec<Scalar> = Vec::new();
    let mut q: usize = 0;
    while q < n
        invariant
            q <= n,
            n == points@.len(),
            centroids@.len() == k,
            assignments@.len() == n,
            forall|x: int| 0 <= x < n ==> (#[trigger] assignments@[x]) < k,
            errors@.len() == q,
            forall|x: int|
                0 <= x < q ==> vectors::is_distance2(
                    vectors,
                    points@[x],
                    centroids@[assignments@[x] as int],
                    #[trigger] errors@[x],
                ),
        decreases n - q,
    {
        errors.push(vectors.distance2(&points[q], &centroids[assignments[q]]));
        q += 1;
    }
    let inertia = vectors.total(&errors);
    proof {
        assert(are_errors(vectors, points@, assignments@, centroids@, errors@));
        assert(vectors::is_total(vectors, errors@, inertia));
    }
    let r = Clustering { assignments, centroids, inertia };
    proof {
        assert(r.centroids@.len() == clusters_for(asked, points@.len()));
        assert(is_inertia(vectors, points@, r.assignments@, r.centroids@, r.inertia));
        assert(are_enough_rounds(
            vectors,
            points@,
            start,
            max_iter,
            r.assignments@,
            r.centroids@,
        ));
        assert(are_seeds(vectors, points@, start, TrialRng { seed, word: 0 }, begun));
    }
    r
}

/// Selects the points other than `i`.
pub open spec fn other_than(i: usize) -> spec_fn(usize) -> Option<usize> {
    |j: usize|
        if j != i {
            Some(j)
        } else {
            None
        }
}

/// Whether `d` holds answers to the distances of a point to others.
pub open spec fn are_distances<V: Vectors>(
    vectors: &V,
    points: Seq<Vec<Scalar>>,
    i: usize,
    others: Seq<usize>,
    d: Seq<Scalar>,
) -> bool {
    &&& d.len() == others.len()
    &&& forall|k: int|
        0 <= k < d.len() ==> vectors::is_distance(
            vectors,
            points[i as int],
            points[others[k] as int],
            #[trigger] d[k],
        )
}

/// Whether `m` is the mean distance of a point to the others among some points.
pub open spec fn is_mean_distance<V: Vectors>(
    vectors: &V,
    points: Seq<Vec<Scalar>>,
    i: usize,
    others: Seq<usize>,
    m: Scalar,
) -> bool {
    exists|d: Seq<Scalar>| #[trigger]
        are_distances(vectors, points, i, models::pick(others, other_than(i)), d)
            && vectors::is_mean(vectors, d, m)
}

/// The mean distance of a point to others.
fn mean_distance<V: Vectors>(
    points: &Vec<Vec<Scalar>>,
    i: usize,
    others: &Vec<usize>,
    vectors: &V,
) -> (m: Scalar)
    requires
        i < points@.len(),
        forall|k: int| 0 <= k < others@.len() ==> (#[trigger] others@[k]) < points@.len(),
    ensures
        is_mean_distance(vectors, points@, i, others@, m),
{
    let ghost f = other_than(i);
    let mut values: Vec<Scalar> = Vec::new();
    let mut k: usize = 0;
    proof {
        assert(others@.take(0).len() == 0);
    }
    while k < others.len()
        invariant
            k <= others@.len(),
            i < points@.len(),
            forall|k: int| 0 <= k < others@.len() ==> (#[trigger] others@[k]) < points@.len(),
            f == other_than(i),
            are_distances(vectors, points@, i, models::pick(others@.take(k as int), f), values@),
        decreases others@.len() - k,
    {
        let j = others[k];
        let ghost before = values@;
        proof {
            models::pick_step(others@, k as int, f);
        }
        if j != i {
            values.push(vectors.distance(&points[i], &points[j]));
            proof {
                let more = models::pick(others@.take(k + 1), f);
                assert forall|x: int| 0 <= x < values@.len() implies vectors::is_distance(
                    vectors,
                    points@[i as int],
                    points@[more[x] as int],
                    #[trigger] values@[x],
                ) by {
                    if x < before.len() {
                        assert(values@[x] == before[x]);
                    }
                }
            }
        }
        k += 1;
    }
    proof {
        models::pick_whole(others@, f);
    }
    let m = vectors.mean(&values);
    proof {
        assert(are_distances(vectors, points@, i, models::pick(others@, f), values@));
        assert(vectors::is_mean(vectors, values@, m));
    }
    m
}

/// Selects the clusters other than `own` that have points.
pub open spec fn rival(assignments: Seq<usize>, own: usize) -> spec_fn(usize) -> Option<usize> {
    |c: usize|
        if c != own && cluster(assignments, c).len() > 0 {
            Some(c)
        } else {
            None
        }
}

/// The clusters below `k` other than `own` that have points, in order.
pub open spec fn rivals(assignments: Seq<usize>, k: usize, own: usize) -> Seq<usize> {
    models::pick(Seq::new(k as nat, |c: int| c as usize), rival(assignments, own))
}

/// Whether `means` are the mean distances of a point to clusters.
pub open spec fn are_means<V: Vectors>(
    vectors: &V,
    points: Seq<Vec<Scalar>>,
    assignments: Seq<usize>,
    p: usize,
    clusters: Seq<usize>,
    means: Seq<Scalar>,
) -> bool {
    &&& means.len() == clusters.len()
    &&& forall|x: int|
        0 <= x < means.len() ==> is_mean_distance(
            vectors,
            points,
            p,
            cluster(assignments, clusters[x]),
            #[trigger] means[x],
        )
}

/// Whether `b` is the least mean distance of a point to another cluster below `k`, infinity when
/// there is none.
pub open spec fn is_other_distance<V: Vectors>(
    vectors: &V,
    points: Seq<Vec<Scalar>>,
    assignments: Seq<usize>,
    k: usize,
    p: usize,
    b: Scalar,
) -> bool {
    exists|means: Seq<Scalar>| #[trigger]
        are_means(
            vectors,
            points,
            assignments,
            p,
            rivals(assignments, k, assignments[p as int]),
            means,
        ) && vectors::is_least_number(means, b)
}

/// Whether `mark` is the silhouette of a point; a point alone in its cluster, or with no other
/// cluster in reach, has none.
pub open spec fn is_mark<V: Vectors>(
    vectors: &V,
    points: Seq<Vec<Scalar>>,
    assignments: Seq<usize>,
    k: usize,
    p: usize,
    mark: Option<Scalar>,
) -> bool {
    let own = cluster(assignments, assignments[p as int]);
    if own.len() <= 1 {
        mark is None
    } else {
        exists|a: Scalar, b: Scalar| #[trigger]
            is_mean_distance(vectors, points, p, own, a) && #[trigger] is_other_distance(
                vectors,
                points,
                assignments,
                k,
                p,
                b,
            ) && if b.finite() {
                mark matches Some(s) && vectors::is_silhouette(vectors, a, b, s)
            } else {
                mark is None
            }
    }
}

/// Whether `marks` are the silhouettes of the first points.
pub open spec fn are_marks<V: Vectors>(
    vectors: &V,
    points: Seq<Vec<Scalar>>,
    assignments: Seq<usize>,
    k: usize,
    marks: Seq<Option<Scalar>>,
) -> bool {
    forall|p: int|
        0 <= p < marks.len() ==> is_mark(
            vectors,
            points,
            assignments,
            k,
            p as usize,
            #[trigger] marks[p],
        )
}

/// The silhouettes that there are.
pub open spec fn given(marks: Seq<Option<Scalar>>) -> Seq<Scalar> {
    models::pick(marks, |m: Option<Scalar>| m)
}

/// Whether `r` is the mean silhouette of clustered points, zero when no point has one.
pub open spec fn is_score<V: Vectors>(
    vectors: &V,
    points: Seq<Vec<Scalar>>,
    assignments: Seq<usize>,
    r: Scalar,
) -> bool {
    if points.len() < 2 {
        r.pattern() == 0
    } else {
        exists|k: usize, marks: Seq<Option<Scalar>>|
            marks.len() == points.len() && all_below(assignments, k) && #[trigger] are_marks(
                vectors,
                points,
                assignments,
                k,
                marks,
            ) && if given(marks).len() == 0 {
                r.pattern() == 0
            } else {
                vectors::is_mean(vectors, given(marks), r)
            }
    }
}

/// Whether all clusters lie below `k`.
pub open spec fn all_below(assignments: Seq<usize>, k: usize) -> bool {
    forall|i: int| 0 <= i < assignments.len() ==> (#[trigger] assignments[i]) < k
}

/// Mean silhouette coefficient over points in clusters of more than one (higher is better);
/// zero for fewer than two points, and when every cluster is a single point.
pub fn silhouette<V: Vectors>(
    points: &Vec<Vec<Scalar>>,
    assignments: &Vec<usize>,
    vectors: &V,
) -> (r: Scalar)
    requires
        points@.len() == assignments@.len(),
        forall|i: int|
            0 <= i < assignments@.len() ==> (#[trigger] assignments@[i]) < usize::MAX,
    ensures
        is_score(vectors, points@, assignments@, r),
        (forall|i: int|
            0 <= i < assignments@.len() ==> cluster(
                assignments@,
                #[trigger] assignments@[i],
            ).len() <= 1) ==> r.pattern() == 0,
{
    let n = points.len();
    if n < 2 {
        return Scalar::zero();
    }
    let mut k: usize = 1;
    let mut i: usize = 0;
    while i < n
        invariant
            i <= n,
            n == assignments@.len(),
            forall|i: int|
                0 <= i < assignments@.len() ==> (#[trigger] assignments@[i]) < usize::MAX,
            forall|x: int| 0 <= x < i ==> (#[trigger] assignments@[x]) < k,
        decreases n - i,
    {
        if assignments[i] >= k {
            k = assignments[i] + 1;
        }
        i += 1;
    }
    let mut clusters: Vec<Vec<usize>> = Vec::new();
    let mut c: usize = 0;
    while c < k
        invariant
            c <= k,
            n == points@.len(),
            n == assignments@.len(),
            clusters@.len() == c,
            forall|x: int|
                0 <= x < c ==> (#[trigger] clusters@[x])@ == cluster(assignments@, x as usize),
            forall|x: int, y: int|
                0 <= x < c && 0 <= y < clusters@[x]@.len() ==> (#[trigger] clusters@[x]@[y]) < n,
        decreases k - c,
    {
        clusters.push(members(assignments, c));
        c += 1;
    }
    let mut values: Vec<Scalar> = Vec::new();
    let ghost mut marks: Seq<Option<Scalar>> = Seq::empty();
    let ghost id = |m: Option<Scalar>| m;
    let mut p: usize = 0;
    while p < n
        invariant
            p <= n,
            n == points@.len(),
            n == assignments@.len(),
            clusters@.len() == k,
            marks.len() == p,
            id == (|m: Option<Scalar>| m),
            values@ =~= models::pick(marks, id),
            are_marks(vectors, points@, assignments@, k, marks),
            forall|x: int| 0 <= x < n ==> (#[trigger] assignments@[x]) < k,
            forall|x: int|
                0 <= x < k ==> (#[trigger] clusters@[x])@ == cluster(assignments@, x as usize),
            forall|x: int, y: int|
                0 <= x < k && 0 <= y < clusters@[x]@.len() ==> (#[trigger] clusters@[x]@[y]) < n,
            (forall|i: int|
                0 <= i < assignments@.len() ==> cluster(
                    assignments@,
                    #[trigger] assignments@[i],
                ).len() <= 1) ==> values@.len() == 0,
        decreases n - p,
    {
        let own = assignments[p];
        let ghost ended = marks;
        let ghost mut mark: Option<Scalar> = None;
        proof {
            assert(clusters@[own as int]@ == cluster(assignments@, own));
        }
        if clusters[own].len() > 1 {
            let a = mean_distance(points, p, &clusters[own], vectors);
            let mut means: Vec<Scalar> = Vec::new();
            let ghost all = Seq::new(k as nat, |c: int| c as usize);
            let ghost f = rival(assignments@, own);
            let mut c: usize = 0;
            proof {
                assert(all.take(0).len() == 0);
            }
            while c < k
                invariant
                    c <= k,
                    p < n,
                    n == points@.len(),
                    clusters@.len() == k,
                    forall|x: int|
                        0 <= x < k ==> (#[trigger] clusters@[x])@ == cluster(
                            assignments@,
                            x as usize,
                        ),
                    forall|x: int, y: int|
                        0 <= x < k && 0 <= y < clusters@[x]@.len() ==> (
                        #[trigger] clusters@[x]@[y]) < n,
                    all == Seq::new(k as nat, |c: int| c as usize),
                    f == rival(assignments@, own),
                    are_means(
                        vectors,
                        points@,
                        assignments@,
                        p,
                        models::pick(all.take(c as int), f),
                        means@,
                    ),
                decreases k - c,
            {
                let ghost before = means@;
                proof {
                    models::pick_step(all, c as int, f);
                    assert(all[c as int] == c);
                    assert(clusters@[c as int]@ == cluster(assignments@, c));
                }
                if c != own && clusters[c].len() > 0 {
                    means.push(mean_distance(points, p, &clusters[c], vectors));
                    proof {
                        let more = models::pick(all.take(c + 1), f);
                        assert forall|x: int| 0 <= x < means@.len() implies is_mean_distance(
                            vectors,
                            points@,
                            p,
                            cluster(assignments@, more[x]),
                            #[trigger] means@[x],
                        ) by {
                            if x < before.len() {
                                assert(means@[x] == before[x]);
                            }
                        }
                    }
                }
                c += 1;
            }
            let b = least_number(&means);
            proof {
                models::pick_whole(all, f);
                assert(are_means(
                    vectors,
                    points@,
                    assignments@,
                    p,
                    rivals(assignments@, k, own),
                    means@,
                ));
                assert(is_other_distance(vectors, points@, assignments@, k, p, b));
            }
            if b.is_finite() {
                let s = vectors.silhouette(a, b);
                values.push(s);
                proof {
                    mark = Some(s);
                    assert(vectors::is_silhouette(vectors, a, b, s));
                }
            }
            proof {
                assert(is_mean_distance(
                    vectors,
                    points@,
                    p,
                    cluster(assignments@, assignments@[p as int]),
                    a,
                ));
            }
        }
        proof {
            assert(is_mark(vectors, points@, assignments@, k, p, mark));
            marks = ended.push(mark);
            assert(marks.drop_last() =~= ended);
            assert(marks.last() == mark);
            assert forall|x: int| 0 <= x < marks.len() implies is_mark(
                vectors,
                points@,
                assignments@,
                k,
                x as usize,
                #[trigger] marks[x],
            ) by {
                if x < ended.len() {
                    assert(marks[x] == ended[x]);
                }
            }
        }
        p += 1;
    }
    proof {
        assert(values@ == given(marks));
        assert(all_below(assignments@, k));
        assert(are_marks(vectors, points@, assignments@, k, marks));
    }
    if values.len() == 0 {
        Scalar::zero()
    } else {
        let r = vectors.mean(&values);
        proof {
            assert(vectors::is_mean(vectors, given(marks), r));
        }
        r
    }
}

/// The objective of a clustering search: the silhouette of the best of several restarts.
#[derive(Debug)]
pub struct ClusterObjective<V> {
    data: Vec<Vec<Scalar>>,
    n_init: usize,
    vectors: V,
}

/// What a [`ClusterObjective`] stands for in contracts.
pub struct ClusterTask<V> {
    /// The points.
    pub data: Seq<Vec<Scalar>>,
    /// Restarts per candidate.
    pub n_init: usize,
    /// Who is asked for arithmetic on vectors.
    pub vectors: V,
}

impl<V> View for ClusterObjective<V> {
    type V = ClusterTask<V>;

    closed spec fn view(&self) -> ClusterTask<V> {
        ClusterTask { data: self.data@, n_init: self.n_init, vectors: self.vectors }
    }
}

impl<V> ClusterTask<V> {
    /// Whether there is something to cluster: every point has the numbers that the first one has.
    pub open spec fn usable(self) -> bool {
        self.data.len() > 0 && vectors::reaching(self.data, self.data[0]@.len() as int)
    }
}

/// The seed of restart `i`.
pub open spec fn run_seed(base: u64, i: int) -> u64 {
    ((base + i) % 0x1_0000_0000_0000_0000) as u64
}

/// The seed of the first restart with `k` clusters.
pub open spec fn base_seed(k: i64) -> u64 {
    (k as u64).wrapping_mul(1000)
}

/// Whether `runs` are clusterings of points, and `best` the first of those with the least
/// inertia.
pub open spec fn is_best_run<V: Vectors>(
    vectors: &V,
    points: Seq<Vec<Scalar>>,
    k: usize,
    base: u64,
    runs: Seq<Clustering>,
    best: int,
) -> bool {
    let inertias = Seq::new(runs.len(), |i: int| runs[i].inertia);
    &&& 0 <= best < runs.len()
    &&& forall|i: int|
        0 <= i < runs.len() ==> is_clustering(
            vectors,
            points,
            k,
            run_seed(base, i),
            ROUNDS,
            #[trigger] runs[i],
        )
    &&& best == vectors::least_met(inertias)
}

impl<V: Vectors> ClusterTask<V> {
    /// Whether `score` is that of `k` clusters: the mean silhouette of the best of the restarts.
    pub open spec fn scores(self, k: i64, score: Scalar) -> bool {
        exists|runs: Seq<Clustering>, best: int|
            runs.len() == (if self.n_init < 1 {
                1
            } else {
                self.n_init as nat
            }) && #[trigger] is_best_run(
                &self.vectors,
                self.data,
                k as usize,
                base_seed(k),
                runs,
                best,
            ) && is_score(&self.vectors, self.data, runs[best].assignments@, score)
    }
}

impl<V: Vectors + Clone> Objective for ClusterObjective<V> {
    open spec fn allows(
        &self,
        params: Assignment,
        reports: ReportLog,
        stopped: bool,
        outcome: Outcome,
    ) -> bool {
        reports == Seq::<(u64, Metrics)>::empty() && match param::integer_in(params, "k"@) {
            Some(k) => match outcome {
                Ok(m) => self@.usable() && m.dom() == set!["silhouette"@] && self@.scores(
                    k,
                    m["silhouette"@],
                ),
                Err(e) => !self@.usable() && (e matches Error::Objective(t) && t@
                    == "a clustering point has too few numbers"@),
            },
            None => outcome matches Err(e) && param::is_refusal(e, params, "k"@, "int"@),
        }
    }

    fn evaluate<K: ReportSink>(&self, params: &ParamSet, report: &mut K) -> (r: Result<
        NamedMetrics,
        Error,
    >) {
        proof {
            let none = Seq::<(u64, Metrics)>::empty();
            assert(report.log() + none =~= report.log());
            assert(objective::log_grows(report.log(), none, report.log()));
        }
        let k = match params.integer("k") {
            Ok(k) => k,
            Err(e) => {
                return Err(e);
            },
        };
        if self.data.len() == 0 || !is_reaching(&self.data, self.data[0].len()) {
            return Err(Error::Objective("a clustering point has too few numbers".to_owned()));
        }
        let base = (k as u64).wrapping_mul(1000);
        let mut best = kmeans(&self.data, k as usize, base, ROUNDS, &self.vectors);
        let ghost mut runs: Seq<Clustering> = seq![best];
        let ghost mut at: int = 0;
        let mut restart: usize = 1;
        while restart < self.n_init
            invariant
                self.data@.len() > 0,
                vectors::reaching(self.data@, self.data@[0]@.len() as int),
                1 <= restart,
                runs.len() == restart,
                restart <= self.n_init || restart == 1,
                is_best_run(
                    &self.vectors,
                    self.data@,
                    k as usize,
                    base,
                    runs,
                    at,
                ),
                best == runs[at],
            decreases self.n_init - restart,
        {
            let next = kmeans(
                &self.data,
                k as usize,
                base.wrapping_add(restart as u64),
                ROUNDS,
                &self.vectors,
            );
            let ghost before = runs;
            let ghost was = at;
            proof {
                runs = before.push(next);
                if next.inertia.less(best.inertia) {
                    at = restart as int;
                }
                let old_keys = Seq::new(before.len(), |i: int| before[i].inertia);
                let keys = Seq::new(runs.len(), |i: int| runs[i].inertia);
                assert forall|i: int| 0 <= i < runs.len() implies is_clustering(
                    &self.vectors,
                    self.data@,
                    k as usize,
                    run_seed(base, i),
                    ROUNDS,
                    #[trigger] runs[i],
                ) by {
                    if i < before.len() {
                        assert(runs[i] == before[i]);
                    }
                }
                assert(keys.drop_last() =~= old_keys);
                assert(keys[was] == best.inertia);
            }
            if next.inertia.lt(&best.inertia) {
                best = next;
            }
            restart += 1;
        }
        let most = best.centroids.len();
        proof {
            assert(is_clustering(
                &self.vectors,
                self.data@,
                k as usize,
                run_seed(base, at),
                ROUNDS,
                runs[at],
            ));
            assert forall|i: int| 0 <= i < best.assignments@.len() implies (
            #[trigger] best.assignments@[i]) < usize::MAX by {
                assert(best.assignments@[i] < most);
            }
        }
        let score = silhouette(&self.data, &best.assignments, &self.vectors);
        let m = NamedMetrics::single("silhouette", score);
        proof {
            assert(m@.dom() =~= set!["silhouette"@]);
            let task = self@;
            assert(base == base_seed(k));
            assert(is_best_run(&task.vectors, task.data, k as usize, base_seed(k), runs, at));
            assert(is_score(&task.vectors, task.data, runs[at].assignments@, score));
            assert(self@.scores(k, score));
        }
        Ok(m)
    }
}

/// One-call clustering search over the number of clusters.
///
/// For each candidate, K-means is run several times (keeping the lowest inertia) and scored by
/// the mean silhouette, which the study maximizes.
#[derive(Debug)]
pub struct AutoCluster {
    data: Vec<Vec<Scalar>>,
    max_k: usize,
    n_init: usize,
    trials: u64,
    seed: u64,
}

/// What an [`AutoCluster`] stands for in contracts.
pub struct ClusterModel {
    /// The points.
    pub data: Seq<Vec<Scalar>>,
    /// The greatest number of clusters.
    pub max_k: usize,
    /// Restarts per candidate.
    pub n_init: usize,
    /// Search trials.
    pub trials: u64,
    /// The seed.
    pub seed: u64,
}

impl ClusterModel {
    /// The greatest number of clusters that is tried.
    pub open spec fn most(self) -> int {
        let n = if self.max_k < self.data.len() - 1 {
            self.max_k as int
        } else {
            self.data.len() - 1
        };
        if n < MIN_CLUSTERS {
            MIN_CLUSTERS as int
        } else {
            n
        }
    }

    /// What is searched: the number of clusters.
    pub open spec fn searches(self) -> space::SpaceModel {
        seq![
            space::free(
                "k"@,
                DistModel::Int {
                    low: MIN_CLUSTERS as i64,
                    high: self.most() as i64,
                    log: false,
                    step: 1,
                },
            ),
        ]
    }
}

impl View for AutoCluster {
    type V = ClusterModel;

    closed spec fn view(&self) -> ClusterModel {
        ClusterModel {
            data: self.data@,
            max_k: self.max_k,
            n_init: self.n_init,
            trials: self.trials,
            seed: self.seed,
        }
    }
}

impl AutoCluster {
    /// A clustering search over `data`, considering two to `max_k` clusters.
    pub fn new(data: Vec<Vec<Scalar>>, max_k: usize) -> (a: Self)
        ensures
            a@ == (ClusterModel {
                data: data@,
                max_k: if max_k < 2 {
                    2
                } else {
                    max_k
                },
                n_init: 4,
                trials: 12,
                seed: 0,
            }),
    {
        AutoCluster {
            data,
            max_k: if max_k < 2 {
                2
            } else {
                max_k
            },
            n_init: 4,
            trials: 12,
            seed: 0,
        }
    }

    /// Number of K-means restarts per candidate (at least 1).
    pub fn n_init(self, n: usize) -> (a: Self)
        ensures
            a@ == (ClusterModel {
                n_init: if n < 1 {
                    1
                } else {
                    n
                },
                ..self@
            }),
    {
        let mut a = self;
        a.n_init = if n < 1 {
            1
        } else {
            n
        };
        a
    }

    /// Number of search trials.
    pub fn trials(self, t: u64) -> (a: Self)
        ensures
            a@ == (ClusterModel { trials: t, ..self@ }),
    {
        let mut a = self;
        a.trials = t;
        a
    }

    /// Seed for the search.
    pub fn seed(self, s: u64) -> (a: Self)
        ensures
            a@ == (ClusterModel { seed: s, ..self@ }),
    {
        let mut a = self;
        a.seed = s;
        a
    }

    /// Run the search. Returns the study (maximizing silhouette); the best trial's `k` is the
    /// chosen number of clusters.
    pub fn fit<R: Reals, V: Vectors + Clone>(self, reals: R, vectors: V) -> (r: Result<
        Study<InMemoryStorage, GridSampler, NoPruner, R>,
        Error,
    >)
        requires
            self@.data.len() <= i64::MAX,
            self@.trials < u64::MAX,
        ensures
            r is Ok <==> self@.data.len() >= 2,
            match r {
                Ok(s) => s.well_formed() && s.meta().name == "auto-cluster"@
                    && s.aims() == seq![("silhouette"@, Direction::Maximize)]
                    && s.searches() == self@.searches() && s.seed() == self@.seed
                    && s.trials().len() == self@.trials && (forall|i: int|
                    0 <= i < s.trials().len() ==> run::settled(#[trigger] s.trials()[i]))
                    && s.rig().reals == reals && exists|
                    o: ClusterObjective<V>,
                    sampler: GridSampler,
                | #[trigger]
                    s.searched(o, self@.trials, sampler) && o@ == (ClusterTask {
                        data: self@.data,
                        n_init: self@.n_init,
                        vectors,
                    }) && !sampler.ready() && sampler.samples() == 1 && sampler.next() == 0,
                Err(e) => e matches Error::Objective(m) && m@
                    == "clustering needs at least as many points as clusters"@,
            },
    {
        if self.data.len() < MIN_CLUSTERS {
            return Err(
                Error::Objective(
                    "clustering needs at least as many points as clusters".to_owned(),
                ),
            );
        }
        let last = self.data.len() - 1;
        let most: usize = if self.max_k < last {
            self.max_k
        } else {
            last
        };
        let most: usize = if most < MIN_CLUSTERS {
            MIN_CLUSTERS
        } else {
            most
        };
        let space = SearchSpace::new().add(
            "k",
            Distribution::integer(MIN_CLUSTERS as i64, most as i64),
        );
        proof {
            assert(space@ =~= self@.searches());
            assert(space::def_sound(space@, 0));
        }
        let sampler = GridSampler::new(1);
        let ghost first = sampler;
        let builder = Study::builder(space, reals).name("auto-cluster").maximize(
            "silhouette",
        ).sampler(sampler).seed(self.seed);
        let mut study = match builder.build() {
            Ok(s) => s,
            Err(e) => {
                return Err(e);
            },
        };
        let objective = ClusterObjective { data: self.data, n_init: self.n_init, vectors };
        let ghost fresh = study.bench();
        proof {
            assert(fresh.trials =~= Seq::<TrialModel>::empty());
            assert(fresh == (Bench { trials: Seq::<TrialModel>::empty(), sampler: first }));
        }
        match study.optimize_n(&objective, self.trials) {
            Ok(_) => {},
            Err(e) => {
                return Err(e);
            },
        }
        proof {
            assert(study.aims() =~= seq![("silhouette"@, Direction::Maximize)]);
            assert(study.searched(objective, self.trials, first));
        }
        Ok(study)
    }
}

/// A round sends each point to a nearest centroid: none lies at a lesser distance.
pub proof fn law_points_go_to_the_nearest_centroid<V: Vectors>(
    vectors: &V,
    points: Seq<Vec<Scalar>>,
    before: Seq<Vec<Scalar>>,
    assignments: Seq<usize>,
    after: Seq<Vec<Scalar>>,
    i: int,
)
    requires
        is_round(vectors, points, before, assignments, after),
        0 <= i < points.len(),
    ensures
        vectors::is_no_farther(vectors, points[i], before, assignments[i] as int),
{
    assert(is_nearest(vectors, points[i], before, assignments[i] as int));
    let d = choose|d: Seq<Scalar>| #[trigger]
        vectors::are_distances2(vectors, points[i], before, d) && 0 <= assignments[i] < d.len()
            && assignments[i] == vectors::least_met(d);
    vectors::law_least_met_is_first_least(d);
    if order::all_numbers(d) {
        assert forall|j: int| 0 <= j < d.len() implies !(#[trigger] d[j]).less(
            d[assignments[i] as int],
        ) by {
            assert(d[assignments[i] as int].key() <= d[j].key());
        }
    }
}

/// Whether a list names each point of a cluster once, in order, and no other.
pub open spec fn lists_cluster(assignments: Seq<usize>, c: usize, own: Seq<usize>) -> bool {
    &&& forall|k: int|
        0 <= k < own.len() ==> (#[trigger] own[k]) < assignments.len() && assignments[own[k] as int]
            == c
    &&& forall|a: int, b: int| 0 <= a < b < own.len() ==> (#[trigger] own[a]) < (#[trigger] own[b])
    &&& forall|i: int|
        0 <= i < assignments.len() && (#[trigger] assignments[i]) == c ==> own.contains(i as usize)
}

proof fn cluster_is_listed(assignments: Seq<usize>, c: usize)
    requires
        assignments.len() <= usize::MAX,
    ensures
        lists_cluster(assignments, c, cluster(assignments, c)),
{
    let own = cluster(assignments, c);
    let all = numbered(assignments);
    let f = in_cluster(c);
    assert forall|k: int| 0 <= k < own.len() implies (#[trigger] own[k]) < assignments.len()
        && assignments[own[k] as int] == c by {
        let i = models::pick_origin(all, f, k);
        assert(all[i] == (i as usize, assignments[i]));
    }
    assert forall|a: int, b: int| 0 <= a < b < own.len() implies (#[trigger] own[a]) < (
    #[trigger] own[b]) by {
        let (i, j) = models::pick_origins(all, f, a, b);
        assert(all[i] == (i as usize, assignments[i]) && all[j] == (j as usize, assignments[j]));
    }
    assert forall|i: int| 0 <= i < assignments.len() && (#[trigger] assignments[i])
        == c implies own.contains(i as usize) by {
        assert(all[i] == (i as usize, assignments[i]));
        let k = models::pick_holds(all, f, i);
        assert(own[k] == i as usize);
    }
}

/// A round moves each centroid with points to their mean, and leaves any other where it is.
pub proof fn law_centroids_move_to_the_mean<V: Vectors>(
    vectors: &V,
    points: Seq<Vec<Scalar>>,
    before: Seq<Vec<Scalar>>,
    assignments: Seq<usize>,
    after: Seq<Vec<Scalar>>,
    c: usize,
)
    requires
        is_round(vectors, points, before, assignments, after),
        0 <= c < after.len(),
        points.len() <= usize::MAX,
    ensures
        exists|own: Seq<usize>| #[trigger]
            lists_cluster(assignments, c, own) && if own.len() == 0 {
                after[c as int] == before[c as int]
            } else {
                forall|j: int|
                    0 <= j < points[0]@.len() ==> vectors::is_mean(
                        vectors,
                        Seq::new(own.len(), |k: int| points[own[k] as int]@[j]),
                        #[trigger] after[c as int]@[j],
                    )
            },
{
    cluster_is_listed(assignments, c);
    let own = cluster(assignments, c);
    let d = points[0]@.len() as int;
    assert(after[c as int] == after[c as int]);
    if own.len() > 0 {
        let x = after[c as int]@;
        assert(is_moved(vectors, points, own, d, before[c as int]@, x));
        let center = choose|center: Seq<Scalar>| #[trigger]
            vectors::is_center(vectors, points, own, d, center) && x == center
                + before[c as int]@.skip(d);
        assert forall|j: int| 0 <= j < d implies vectors::is_mean(
            vectors,
            Seq::new(own.len(), |k: int| points[own[k] as int]@[j]),
            #[trigger] x[j],
        ) by {
            assert(x[j] == center[j]);
            assert(vectors::column(points, own, j) =~= Seq::new(
                own.len(),
                |k: int| points[own[k] as int]@[j],
            ));
        }
    }
}

/// Of several restarts the tightest counts: its points lie closest to their centroids in all, and
/// the score is its silhouette.
pub proof fn law_the_tightest_restart_counts<V: Vectors>(
    task: ClusterTask<V>,
    k: i64,
    score: Scalar,
)
    requires
        task.scores(k, score),
    ensures
        exists|runs: Seq<Clustering>, best: int|
            0 <= best < runs.len() && runs.len() == (if task.n_init == 0 {
                1
            } else {
                task.n_init as nat
            }) && (forall|i: int|
                0 <= i < runs.len() ==> is_clustering(
                    &task.vectors,
                    task.data,
                    k as usize,
                    run_seed(base_seed(k), i),
                    50,
                    #[trigger] runs[i],
                )) && ((forall|i: int|
                0 <= i < runs.len() ==> !(#[trigger] runs[i]).inertia.nan()) ==> forall|i: int|
                0 <= i < runs.len() ==> !(#[trigger] runs[i]).inertia.less(runs[best].inertia))
                && is_score(
                &task.vectors,
                task.data,
                (#[trigger] runs[best]).assignments@,
                score,
            ),
{
    let (runs, best) = choose|runs: Seq<Clustering>, best: int|
        runs.len() == (if task.n_init < 1 {
            1
        } else {
            task.n_init as nat
        }) && #[trigger] is_best_run(
            &task.vectors,
            task.data,
            k as usize,
            base_seed(k),
            runs,
            best,
        ) && is_score(&task.vectors, task.data, runs[best].assignments@, score);
    let inertias = Seq::new(runs.len(), |i: int| runs[i].inertia);
    vectors::law_least_met_is_first_least(inertias);
    if forall|i: int| 0 <= i < runs.len() ==> !(#[trigger] runs[i]).inertia.nan() {
        assert(order::all_numbers(inertias)) by {
            assert forall|i: int| 0 <= i < inertias.len() implies !(#[trigger] inertias[i]).nan() by {
                assert(!runs[i].inertia.nan());
            }
        }
        assert forall|i: int| 0 <= i < runs.len() implies !(#[trigger] runs[i]).inertia.less(
            runs[best].inertia,
        ) by {
            assert(inertias[best].key() <= inertias[i].key());
        }
    }
    assert(runs[best] == runs[best]);
}

/// The silhouette of a point sets its mean distance to the rest of its own cluster against the
/// least of those to the other clusters.
pub proof fn law_silhouettes_compare_with_the_nearest_cluster<V: Vectors>(
    vectors: &V,
    points: Seq<Vec<Scalar>>,
    assignments: Seq<usize>,
    k: usize,
    p: usize,
    s: Scalar,
    c: usize,
)
    requires
        is_mark(vectors, points, assignments, k, p, Some(s)),
        p < assignments.len(),
        assignments.len() == points.len(),
        points.len() <= usize::MAX,
        c < k,
        c != assignments[p as int],
        assignments.contains(c),
    ensures
        exists|a: Scalar, b: Scalar, m: Scalar|
            #![trigger is_mean_distance(
                vectors,
                points,
                p,
                cluster(assignments, assignments[p as int]),
                a,
            ), vectors::is_silhouette(
                vectors,
                a,
                b,
                s,
            ), is_mean_distance(vectors, points, p, cluster(assignments, c), m)]
            is_mean_distance(vectors, points, p, cluster(assignments, assignments[p as int]), a)
                && vectors::is_silhouette(vectors, a, b, s) && is_mean_distance(
                vectors,
                points,
                p,
                cluster(assignments, c),
                m,
            ) && b.finite() && !m.less(b),
{
    let own = cluster(assignments, assignments[p as int]);
    let (a, b) = choose|a: Scalar, b: Scalar| #[trigger]
        is_mean_distance(vectors, points, p, own, a) && #[trigger] is_other_distance(
            vectors,
            points,
            assignments,
            k,
            p,
            b,
        ) && b.finite() && vectors::is_silhouette(vectors, a, b, s);
    let mine = assignments[p as int];
    let others = rivals(assignments, k, mine);
    let means = choose|means: Seq<Scalar>| #[trigger]
        are_means(vectors, points, assignments, p, others, means) && vectors::is_least_number(
            means,
            b,
        );
    let all = Seq::new(k as nat, |x: int| x as usize);
    cluster_is_listed(assignments, c);
    let i = choose|i: int| 0 <= i < assignments.len() && assignments[i] == c;
    assert(cluster(assignments, c).contains(i as usize));
    assert(all[c as int] == c);
    let x = models::pick_holds(all, rival(assignments, mine), c as int);
    assert(others[x] == c);
    let m = means[x];
    assert(is_mean_distance(vectors, points, p, cluster(assignments, others[x]), means[x]));
}

} // verus!
