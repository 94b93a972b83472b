//! NSGA-II multi-objective sampler.
//!
//! A population is evolved toward the whole Pareto front at once: parents are selected by
//! non-dominated rank (which front a solution lies on) and, within a front, by crowding distance
//! (how isolated it is), which spreads solutions along the trade-off.

use vstd::prelude::*;
use crate::named::Named;
use crate::evolution::{gene, Parents};
use crate::metrics::Direction;
use crate::order::ranking;
use crate::param::{Assignment, ParamSet};
use crate::reals::Reals;
use crate::rng::TrialRng;
use crate::sampler::{suggestion_rng, RandomSampler, Sampler};
use crate::scalar::{Scalar, ONE};
use crate::space::{DefModel, SearchSpace, SpaceModel};
use crate::trial::{HistoryModel, TrialHistory, TrialModel, TrialRecord, TrialState};
#[allow(unused_imports)]
use crate::evolution;
#[allow(unused_imports)]
use crate::models;
#[allow(unused_imports)]
use crate::order;
#[allow(unused_imports)]
use crate::reals;
#[allow(unused_imports)]
use crate::sampler;
#[allow(unused_imports)]
use crate::space;
#[allow(unused_imports)]
use crate::storage;

verus! {

/// The shorter of two lengths.
pub open spec fn shorter(a: nat, b: nat) -> nat {
    if a < b {
        a
    } else {
        b
    }
}

/// `a` dominates `b` where lower is better on every axis: no worse anywhere, better somewhere.
pub open spec fn below_all(a: Seq<Scalar>, b: Seq<Scalar>) -> bool {
    let n = shorter(a.len(), b.len()) as int;
    &&& forall|i: int| 0 <= i < n ==> !b[i].less(#[trigger] a[i])
    &&& exists|i: int| 0 <= i < n && (#[trigger] a[i]).less(b[i])
}

/// Whether `a` dominates `b` (both with lower better on every axis): no worse on all objectives
/// and strictly better on at least one.
pub fn dominates(a: &Vec<Scalar>, b: &Vec<Scalar>) -> (r: bool)
    ensures
        r == below_all(a@, b@),
{
    let n: usize = if a.len() < b.len() {
        a.len()
    } else {
        b.len()
    };
    let mut strictly = false;
    let mut i: usize = 0;
    while i < n
        invariant
            i <= n,
            n == shorter(a@.len(), b@.len()),
            forall|k: int| 0 <= k < i ==> !b@[k].less(#[trigger] a@[k]),
            strictly == exists|k: int| 0 <= k < i && (#[trigger] a@[k]).less(b@[k]),
        decreases n - i,
    {
        if b[i].lt(&a[i]) {
            return false;
        }
        if a[i].lt(&b[i]) {
            strictly = true;
        }
        i += 1;
    }
    strictly
}

/// The points of a population.
pub open spec fn points(pop: Seq<Vec<Scalar>>) -> Seq<Seq<Scalar>> {
    pop.map_values(|p: Vec<Scalar>| p@)
}

/// Whether all points have the same number of axes and no NaN.
pub open spec fn comparable(pop: Seq<Seq<Scalar>>) -> bool {
    &&& forall|i: int| 0 <= i < pop.len() ==> order::all_numbers(#[trigger] pop[i])
    &&& forall|i: int, j: int|
        0 <= i < pop.len() && 0 <= j < pop.len() ==> (#[trigger] pop[i]).len() == (
        #[trigger] pop[j]).len()
}

/// Among comparable points, dominance is transitive.
pub proof fn law_below_all_is_transitive(a: Seq<Scalar>, b: Seq<Scalar>, c: Seq<Scalar>)
    requires
        a.len() == b.len(),
        b.len() == c.len(),
        order::all_numbers(a),
        order::all_numbers(b),
        order::all_numbers(c),
        below_all(a, b),
        below_all(b, c),
    ensures
        below_all(a, c),
        !below_all(c, a),
{
    let n = a.len() as int;
    assert forall|i: int| 0 <= i < n implies !c[i].less(#[trigger] a[i]) by {
        assert(!b[i].less(a[i]));
        assert(!c[i].less(b[i]));
        assert(!a[i].nan() && !b[i].nan() && !c[i].nan());
    }
    let i = choose|i: int| 0 <= i < n && (#[trigger] a[i]).less(b[i]);
    assert(!c[i].less(b[i]));
    assert(!a[i].nan() && !b[i].nan() && !c[i].nan());
    assert(a[i].less(c[i]));
}

/// Whether `ranks` peels the population into fronts: a point ranks above everything that
/// dominates it, and directly above one of those unless nothing does.
pub open spec fn is_layering(pop: Seq<Seq<Scalar>>, ranks: Seq<usize>) -> bool {
    &&& ranks.len() == pop.len()
    &&& forall|i: int, j: int|
        0 <= i < pop.len() && 0 <= j < pop.len() && #[trigger] below_all(pop[j], pop[i])
            ==> ranks[j] < ranks[i]
    &&& forall|i: int| 0 <= i < pop.len() && ranks[i] > 0 ==> #[trigger] has_parent(pop, ranks, i)
}

/// Whether a point of the front just below dominates point `i`.
pub open spec fn has_parent(pop: Seq<Seq<Scalar>>, ranks: Seq<usize>, i: int) -> bool {
    exists|j: int|
        0 <= j < pop.len() && #[trigger] below_all(pop[j], pop[i]) && ranks[j] == ranks[i] - 1
}

/// A population has one layering only.
pub proof fn law_layering_is_unique(
    pop: Seq<Seq<Scalar>>,
    r: Seq<usize>,
    s: Seq<usize>,
    i: int,
)
    requires
        is_layering(pop, r),
        is_layering(pop, s),
        0 <= i < pop.len(),
    ensures
        r[i] == s[i],
    decreases r[i] + s[i],
{
    if r[i] > s[i] {
        assert(has_parent(pop, r, i));
        let j = choose|j: int|
            0 <= j < pop.len() && #[trigger] below_all(pop[j], pop[i]) && r[j] == r[i] - 1;
        assert(s[j] < s[i]);
        law_layering_is_unique(pop, r, s, j);
    } else if s[i] > r[i] {
        assert(has_parent(pop, s, i));
        let j = choose|j: int|
            0 <= j < pop.len() && #[trigger] below_all(pop[j], pop[i]) && s[j] == s[i] - 1;
        assert(r[j] < r[i]);
        law_layering_is_unique(pop, r, s, j);
    }
}

/// Rank 0 is exactly the non-dominated points.
pub proof fn law_first_front_is_non_dominated(
    pop: Seq<Seq<Scalar>>,
    ranks: Seq<usize>,
    i: int,
)
    requires
        is_layering(pop, ranks),
        0 <= i < pop.len(),
    ensures
        ranks[i] == 0 <==> forall|j: int|
            0 <= j < pop.len() ==> !(#[trigger] below_all(pop[j], pop[i])),
{
    if ranks[i] > 0 {
        assert(has_parent(pop, ranks, i));
        let j = choose|j: int|
            0 <= j < pop.len() && #[trigger] below_all(pop[j], pop[i]) && ranks[j] == ranks[i] - 1;
        assert(below_all(pop[j], pop[i]));
    }
}

/// The members of `left` that dominate point `i`.
spec fn dominators(pop: Seq<Seq<Scalar>>, left: Set<int>, i: int) -> Set<int> {
    left.filter(|j: int| below_all(pop[j], pop[i]))
}

/// Some member of a non-empty finite set of comparable points is dominated by none of them.
proof fn some_is_non_dominated(pop: Seq<Seq<Scalar>>, left: Set<int>, i: int) -> (m: int)
    requires
        comparable(pop),
        left.finite(),
        left.contains(i),
        forall|j: int| #[trigger] left.contains(j) ==> 0 <= j < pop.len(),
    ensures
        left.contains(m),
        forall|j: int| #[trigger] left.contains(j) ==> !below_all(pop[j], pop[m]),
    decreases dominators(pop, left, i).len(),
{
    let d = dominators(pop, left, i);
    left.lemma_len_filter(|j: int| below_all(pop[j], pop[i]));
    if exists|j: int| #[trigger] left.contains(j) && below_all(pop[j], pop[i]) {
        let j = choose|j: int| #[trigger] left.contains(j) && below_all(pop[j], pop[i]);
        let e = dominators(pop, left, j);
        left.lemma_len_filter(|k: int| below_all(pop[k], pop[j]));
        assert(!e.contains(j)) by {
            if e.contains(j) {
                assert(below_all(pop[j], pop[j]));
            }
        }
        assert(e.subset_of(d.remove(j))) by {
            assert forall|k: int| e.contains(k) implies d.remove(j).contains(k) by {
                law_below_all_is_transitive(pop[k], pop[j], pop[i]);
            }
        }
        assert(d.contains(j));
        vstd::set_lib::lemma_len_subset(e, d.remove(j));
        some_is_non_dominated(pop, left, j)
    } else {
        i
    }
}

/// Whether a point that is still unranked (according to `ranked`) dominates point `i`.
fn still_dominated(pop: &Vec<Vec<Scalar>>, ranked: &Vec<bool>, i: usize) -> (r: bool)
    requires
        ranked@.len() == pop@.len(),
        i < pop@.len(),
    ensures
        r == exists|j: int|
            0 <= j < pop@.len() && !ranked@[j] && #[trigger] below_all(
                points(pop@)[j],
                points(pop@)[i as int],
            ),
{
    let ghost pm = points(pop@);
    let mut j: usize = 0;
    while j < pop.len()
        invariant
            j <= pop@.len(),
            ranked@.len() == pop@.len(),
            i < pop@.len(),
            pm == points(pop@),
            forall|k: int|
                0 <= k < j && !ranked@[k] ==> !(#[trigger] below_all(pm[k], pm[i as int])),
        decreases pop@.len() - j,
    {
        if !ranked[j] && dominates(&pop[j], &pop[i]) {
            proof {
                assert(below_all(pm[j as int], pm[i as int]));
            }
            return true;
        }
        j += 1;
    }
    false
}

/// The points that `ranked` has not ranked.
spec fn unranked(ranked: Seq<bool>) -> Set<int> {
    Set::new(|i: int| 0 <= i < ranked.len() && !ranked[i])
}

/// A round of peeling has ranked the fronts below `front`.
spec fn peeled(
    pop: Seq<Seq<Scalar>>,
    ranked: Seq<bool>,
    ranks: Seq<usize>,
    front: int,
) -> bool {
    &&& ranked.len() == pop.len()
    &&& ranks.len() == pop.len()
    &&& forall|i: int| 0 <= i < pop.len() && ranked[i] ==> (#[trigger] ranks[i]) < front
    &&& forall|i: int, j: int|
        0 <= i < pop.len() && 0 <= j < pop.len() && ranked[i] && #[trigger] below_all(
            pop[j],
            pop[i],
        ) ==> ranked[j] && ranks[j] < ranks[i]
    &&& forall|i: int|
        0 <= i < pop.len() && ranked[i] && (#[trigger] ranks[i]) > 0 ==> exists|j: int|
            0 <= j < pop.len() && ranked[j] && #[trigger] below_all(pop[j], pop[i]) && ranks[j]
                == ranks[i] - 1
    &&& front > 0 ==> forall|i: int|
        0 <= i < pop.len() && !(#[trigger] ranked[i]) ==> exists|j: int|
            0 <= j < pop.len() && ranked[j] && #[trigger] below_all(pop[j], pop[i]) && ranks[j]
                == front - 1
}

/// Non-dominated sort: the front rank (0 = best) of each individual.
pub fn non_dominated_ranks(pop: &Vec<Vec<Scalar>>) -> (ranks: Vec<usize>)
    requires
        comparable(points(pop@)),
    ensures
        is_layering(points(pop@), ranks@),
{
    let n = pop.len();
    let ghost pm = points(pop@);
    let mut ranks: Vec<usize> = Vec::new();
    let mut ranked: Vec<bool> = Vec::new();
    let mut i: usize = 0;
    while i < n
        invariant
            i <= n,
            ranks@.len() == i,
            ranked@.len() == i,
            forall|k: int| 0 <= k < i ==> !(#[trigger] ranked@[k]),
        decreases n - i,
    {
        ranks.push(0);
        ranked.push(false);
        i += 1;
    }
    let mut front: usize = 0;
    let mut left: usize = n;
    let ghost mut waiting: Set<int> = unranked(ranked@);
    proof {
        vstd::set_lib::lemma_int_range(0, n as int);
        assert(waiting =~= vstd::set_lib::set_int_range(0, n as int));
    }
    while left > 0
        invariant
            n == pop@.len(),
            pm == points(pop@),
            comparable(pm),
            peeled(pm, ranked@, ranks@, front as int),
            waiting == unranked(ranked@),
            waiting.finite(),
            waiting.len() == left,
            front + left <= n,
        decreases left,
    {
        let ghost before = ranked@;
        let ghost ranks_before = ranks@;
        let mut now: Vec<bool> = Vec::new();
        let mut j: usize = 0;
        while j < n
            invariant
                j <= n,
                n == pop@.len(),
                pm == points(pop@),
                before == ranked@,
                ranked@.len() == n,
                now@.len() == j,
                forall|k: int|
                    0 <= k < j ==> (#[trigger] now@[k]) == (!before[k] && !exists|m: int|
                        0 <= m < n && !before[m] && #[trigger] below_all(pm[m], pm[k])),
            decreases n - j,
        {
            let free = if ranked[j] {
                false
            } else {
                !still_dominated(pop, &ranked, j)
            };
            now.push(free);
            j += 1;
        }
        proof {
            let first = choose|x: int| waiting.contains(x);
            assert(waiting.contains(first)) by {
                if forall|x: int| !waiting.contains(x) {
                    assert(waiting =~= Set::<int>::empty());
                }
            }
            let m = some_is_non_dominated(pm, waiting, first);
            assert(now@[m]) by {
                assert forall|x: int| 0 <= x < n && !before[x] implies !(#[trigger] below_all(
                    pm[x],
                    pm[m],
                )) by {
                    assert(waiting.contains(x));
                }
            }
        }
        let ghost start = left;
        let mut k: usize = 0;
        while k < n
            invariant
                k <= n,
                n == pop@.len(),
                before.len() == n,
                ranked@.len() == n,
                ranks@.len() == n,
                ranks_before.len() == n,
                now@.len() == n,
                forall|x: int| 0 <= x < n && now@[x] ==> !(#[trigger] before[x]),
                forall|x: int|
                    0 <= x < n ==> (#[trigger] ranked@[x]) == (before[x] || (x < k && now@[x])),
                forall|x: int|
                    0 <= x < n ==> (#[trigger] ranks@[x]) == if x < k && now@[x] {
                        front
                    } else {
                        ranks_before[x]
                    },
                waiting == unranked(ranked@),
                waiting.finite(),
                waiting.len() == left,
                left <= start,
                left == start ==> forall|x: int| 0 <= x < k ==> !(#[trigger] now@[x]),
            decreases n - k,
        {
            if now[k] {
                let ghost w = waiting;
                proof {
                    assert(!before[k as int]);
                    assert(!ranked@[k as int]);
                    assert(w.contains(k as int));
                    assert(w.remove(k as int).len() == w.len() - 1);
                }
                ranked[k] = true;
                ranks[k] = front;
                proof {
                    waiting = waiting.remove(k as int);
                    assert(waiting =~= unranked(ranked@));
                    assert(w.len() > 0);
                }
                left = left - 1;
            }
            k += 1;
        }
        proof {
            assert forall|i: int, j: int|
                0 <= i < pm.len() && 0 <= j < pm.len() && ranked@[i] && #[trigger] below_all(
                    pm[j],
                    pm[i],
                ) implies ranked@[j] && ranks@[j] < ranks@[i] by {
                if before[i] {
                    assert(before[j] && ranks_before[j] < ranks_before[i]);
                } else {
                    assert(now@[i]);
                    assert(before[j]);
                    assert(ranks_before[j] < front);
                }
            }
            assert forall|i: int|
                0 <= i < pm.len() && ranked@[i] && (#[trigger] ranks@[i]) > 0 implies exists|j: int|
                0 <= j < pm.len() && ranked@[j] && #[trigger] below_all(pm[j], pm[i]) && ranks@[j]
                    == ranks@[i] - 1 by {
                if before[i] {
                    assert(ranks_before[i] == ranks@[i]);
                    let j = choose|j: int|
                        0 <= j < pm.len() && before[j] && #[trigger] below_all(pm[j], pm[i])
                            && ranks_before[j] == ranks_before[i] - 1;
                    assert(ranks@[j] == ranks_before[j]);
                    assert(below_all(pm[j], pm[i]));
                } else {
                    assert(now@[i]);
                    assert(front > 0);
                    let j = choose|j: int|
                        0 <= j < pm.len() && before[j] && #[trigger] below_all(pm[j], pm[i])
                            && ranks_before[j] == front - 1;
                    assert(ranks@[j] == ranks_before[j]);
                    assert(below_all(pm[j], pm[i]));
                }
            }
            assert forall|i: int| 0 <= i < pm.len() && !(#[trigger] ranked@[i]) implies exists|j: int|
                0 <= j < pm.len() && ranked@[j] && #[trigger] below_all(pm[j], pm[i]) && ranks@[j]
                    == front by {
                assert(!before[i] && !now@[i]);
                let blockers = unranked(before);
                let m = choose|m: int|
                    0 <= m < n && !before[m] && #[trigger] below_all(pm[m], pm[i]);
                let held = dominators(pm, blockers, i);
                assert(blockers.finite()) by {
                    vstd::set_lib::lemma_int_range(0, n as int);
                    assert(blockers.subset_of(vstd::set_lib::set_int_range(0, n as int)));
                    vstd::set_lib::lemma_set_subset_finite(
                        vstd::set_lib::set_int_range(0, n as int),
                        blockers,
                    );
                }
                blockers.lemma_len_filter(|x: int| below_all(pm[x], pm[i]));
                assert(held.contains(m));
                let top = some_is_non_dominated(pm, held, m);
                assert(now@[top]) by {
                    assert forall|x: int| 0 <= x < n && !before[x] implies !(#[trigger] below_all(
                        pm[x],
                        pm[top],
                    )) by {
                        if below_all(pm[x], pm[top]) {
                            law_below_all_is_transitive(pm[x], pm[top], pm[i]);
                            assert(held.contains(x));
                        }
                    }
                }
                assert(ranked@[top] && below_all(pm[top], pm[i]) && ranks@[top] == front);
            }
        }
        front = front + 1;
    }
    proof {
        assert forall|i: int| 0 <= i < n implies #[trigger] ranked@[i] by {
            if !ranked@[i] {
                assert(waiting.contains(i));
                assert(waiting.remove(i).len() == waiting.len() - 1);
            }
        }
        assert forall|i: int| 0 <= i < pm.len() && ranks@[i] > 0 implies #[trigger] has_parent(
            pm,
            ranks@,
            i,
        ) by {
            assert(ranked@[i]);
            let j = choose|j: int|
                0 <= j < pm.len() && ranked@[j] && #[trigger] below_all(pm[j], pm[i]) && ranks@[j]
                    == ranks@[i] - 1;
            assert(below_all(pm[j], pm[i]));
        }
    }
    ranks
}

/// Point `i` is the lowest of its front on axis `m`, the earliest of those.
pub open spec fn lowest_of_front(
    pop: Seq<Seq<Scalar>>,
    ranks: Seq<usize>,
    m: int,
    i: int,
) -> bool {
    forall|j: int|
        0 <= j < pop.len() && ranks[j] == ranks[i] && j != i ==> pop[i][m].key() < (
        #[trigger] pop[j])[m].key() || (pop[i][m].key() == pop[j][m].key() && i < j)
}

/// Point `i` is the highest of its front on axis `m`, the latest of those.
pub open spec fn highest_of_front(
    pop: Seq<Seq<Scalar>>,
    ranks: Seq<usize>,
    m: int,
    i: int,
) -> bool {
    forall|j: int|
        0 <= j < pop.len() && ranks[j] == ranks[i] && j != i ==> (#[trigger] pop[j])[m].key()
            < pop[i][m].key() || (pop[i][m].key() == pop[j][m].key() && j < i)
}

/// Point `i` is an extreme of its front on axis `m`.
pub open spec fn extreme(pop: Seq<Seq<Scalar>>, ranks: Seq<usize>, m: int, i: int) -> bool {
    lowest_of_front(pop, ranks, m, i) || highest_of_front(pop, ranks, m, i)
}

/// The positions with rank `r`, in order.
pub open spec fn front_positions(ranks: Seq<usize>, r: usize, n: int) -> Seq<int>
    decreases n,
{
    if n <= 0 {
        Seq::empty()
    } else if ranks[n - 1] == r {
        front_positions(ranks, r, n - 1).push(n - 1)
    } else {
        front_positions(ranks, r, n - 1)
    }
}

fn front_members(ranks: &Vec<usize>, r: usize) -> (front: Vec<usize>)
    ensures
        front@.map_values(|x: usize| x as int) == front_positions(ranks@, r, ranks@.len() as int),
        front@.len() == front_positions(ranks@, r, ranks@.len() as int).len(),
        forall|k: int|
            0 <= k < front@.len() ==> (#[trigger] front@[k]) < ranks@.len()
                && ranks@[front@[k] as int] == r,
        forall|a: int, b: int|
            0 <= a < b < front@.len() ==> #[trigger] front@[a] < #[trigger] front@[b],
        forall|i: int|
            0 <= i < ranks@.len() && #[trigger] ranks@[i] == r ==> exists|k: int|
                0 <= k < front@.len() && #[trigger] front@[k] == i,
{
    let mut front: Vec<usize> = Vec::new();
    let mut i: usize = 0;
    while i < ranks.len()
        invariant
            i <= ranks@.len(),
            front@.len() == front_positions(ranks@, r, i as int).len(),
            front@.map_values(|x: usize| x as int) =~= front_positions(ranks@, r, i as int),
            forall|k: int|
                0 <= k < front@.len() ==> (#[trigger] front@[k]) < i && ranks@[front@[k] as int]
                    == r,
            forall|a: int, b: int|
                0 <= a < b < front@.len() ==> #[trigger] front@[a] < #[trigger] front@[b],
            forall|x: int|
                0 <= x < i && #[trigger] ranks@[x] == r ==> exists|k: int|
                    0 <= k < front@.len() && #[trigger] front@[k] == x,
        decreases ranks@.len() - i,
    {
        let ghost before = front@;
        if ranks[i] == r {
            front.push(i);
            proof {
                assert forall|x: int| 0 <= x < i + 1 && #[trigger] ranks@[x] == r implies exists|
                    k: int,
                |
                    0 <= k < front@.len() && #[trigger] front@[k] == x by {
                    if x < i {
                        let k = choose|k: int| 0 <= k < before.len() && #[trigger] before[k] == x;
                        assert(front@[k] == x);
                    } else {
                        assert(front@[before.len() as int] == x);
                    }
                }
            }
        }
        i += 1;
    }
    front
}

/// Whether crowding distances keep the ends of every front: they are infinite for the extremes
/// of a front on any axis and throughout fronts of at most two.
pub open spec fn keeps_ends(
    pop: Seq<Seq<Scalar>>,
    ranks: Seq<usize>,
    crowd: Seq<Scalar>,
) -> bool {
    &&& crowd.len() == pop.len()
    &&& forall|i: int|
        0 <= i < pop.len() && front_positions(ranks, ranks[i], pop.len() as int).len() <= 2
            ==> (#[trigger] crowd[i]).bits == crate::scalar::INFINITE
    &&& forall|i: int, m: int|
        0 <= i < pop.len() && 0 <= m < pop[i].len() && (#[trigger] extreme(pop, ranks, m, i))
            ==> crowd[i].bits == crate::scalar::INFINITE
}

/// The values of a front on axis `m`.
pub open spec fn keys_of(pop: Seq<Seq<Scalar>>, front: Seq<int>, m: int) -> Seq<Scalar> {
    Seq::new(front.len(), |x: int| pop[front[x]][m])
}

/// Whether place `q` of a ranking of a front moves from one crowding distance to another: the
/// ends become infinite, what is infinite stays so, and any other adds the gap between its
/// neighbors.
pub open spec fn place_crowds<R: Reals>(
    reals: &R,
    front: Seq<int>,
    keys: Seq<Scalar>,
    p: Seq<usize>,
    before: Seq<Scalar>,
    after: Seq<Scalar>,
    q: int,
) -> bool {
    let i = front[p[q] as int];
    let last = p.len() - 1;
    if q == 0 || q == last || before[i].bits == crate::scalar::INFINITE {
        after[i].bits == crate::scalar::INFINITE
    } else {
        reals::is_crowd(
            reals,
            before[i],
            keys[p[q - 1] as int],
            keys[p[q + 1] as int],
            keys[p[0] as int],
            keys[p[last] as int],
            after[i],
        )
    }
}

/// Whether one axis moves a front from one list of crowding distances to another.
pub open spec fn axis_crowds<R: Reals>(
    reals: &R,
    front: Seq<int>,
    keys: Seq<Scalar>,
    before: Seq<Scalar>,
    after: Seq<Scalar>,
) -> bool {
    exists|p: Seq<usize>| #[trigger]
        order::is_ranking(keys, Direction::Minimize, p) && forall|q: int|
            0 <= q < p.len() ==> #[trigger] place_crowds(
                reals,
                front,
                keys,
                p,
                before,
                after,
                q,
            )
}

/// Whether the first `m` axes, one after the other, move a front from one list of crowding
/// distances to another.
pub open spec fn axes_crowd<R: Reals>(
    reals: &R,
    pop: Seq<Seq<Scalar>>,
    front: Seq<int>,
    m: nat,
    start: Seq<Scalar>,
    dist: Seq<Scalar>,
) -> bool
    decreases m,
{
    if m == 0 {
        dist == start
    } else {
        exists|before: Seq<Scalar>|
            axes_crowd(reals, pop, front, (m - 1) as nat, start, before) && before.len()
                == dist.len() && #[trigger] axis_crowds(
                reals,
                front,
                keys_of(pop, front, m - 1),
                before,
                dist,
            )
    }
}

/// Whether the front of rank `r` moves from one list of crowding distances to another: a front of
/// at most two becomes infinite, and any other goes by its axes; nothing else changes.
pub open spec fn front_crowds<R: Reals>(
    reals: &R,
    pop: Seq<Seq<Scalar>>,
    ranks: Seq<usize>,
    r: usize,
    start: Seq<Scalar>,
    dist: Seq<Scalar>,
) -> bool {
    let front = front_positions(ranks, r, pop.len() as int);
    &&& dist.len() == start.len()
    &&& forall|i: int| 0 <= i < dist.len() && ranks[i] != r ==> #[trigger] dist[i] == start[i]
    &&& if front.len() <= 2 {
        forall|i: int|
            0 <= i < dist.len() && ranks[i] == r ==> (#[trigger] dist[i]).bits
                == crate::scalar::INFINITE
    } else {
        axes_crowd(reals, pop, front, pop[0].len(), start, dist)
    }
}

/// Whether crowding distances come of the fronts of the first `n` ranks, one after the other,
/// from zero.
pub open spec fn fronts_crowd<R: Reals>(
    reals: &R,
    pop: Seq<Seq<Scalar>>,
    ranks: Seq<usize>,
    n: nat,
    dist: Seq<Scalar>,
) -> bool
    decreases n,
{
    if n == 0 {
        dist.len() == pop.len() && forall|i: int|
            0 <= i < dist.len() ==> (#[trigger] dist[i]).pattern() == 0
    } else {
        exists|before: Seq<Scalar>|
            fronts_crowd(reals, pop, ranks, (n - 1) as nat, before) && #[trigger] front_crowds(
                reals,
                pop,
                ranks,
                (n - 1) as usize,
                before,
                dist,
            )
    }
}

/// Whether `dist` are the crowding distances of a population: those of all its fronts.
pub open spec fn is_crowding<R: Reals>(
    reals: &R,
    pop: Seq<Seq<Scalar>>,
    ranks: Seq<usize>,
    dist: Seq<Scalar>,
) -> bool {
    pop.len() > 0 ==> exists|n: nat|
        n <= usize::MAX + 1 && (forall|i: int|
            0 <= i < ranks.len() ==> (#[trigger] ranks[i]) < n)
            && #[trigger] fronts_crowd(reals, pop, ranks, n, dist)
}

/// Crowding distance per individual: large for isolated points, infinite for the extremes of a
/// front on any axis and throughout fronts of at most two. Computed within each rank, so it only
/// compares peers.
pub fn crowding_distances<R: Reals>(
    pop: &Vec<Vec<Scalar>>,
    ranks: &Vec<usize>,
    reals: &R,
) -> (dist: Vec<Scalar>)
    requires
        ranks@.len() == pop@.len(),
        comparable(points(pop@)),
    ensures
        keeps_ends(points(pop@), ranks@, dist@),
        is_crowding(reals, points(pop@), ranks@, dist@),
{
    let n = pop.len();
    let ghost pm = points(pop@);
    let mut dist: Vec<Scalar> = Vec::new();
    let mut max_rank: usize = 0;
    let mut z: usize = 0;
    while z < n
        invariant
            z <= n,
            n == pop@.len(),
            ranks@.len() == n,
            dist@.len() == z,
            forall|k: int| 0 <= k < z ==> (#[trigger] dist@[k]).pattern() == 0,
            forall|k: int| 0 <= k < z ==> (#[trigger] ranks@[k]) <= max_rank,
        decreases n - z,
    {
        dist.push(Scalar::zero());
        if ranks[z] > max_rank {
            max_rank = ranks[z];
        }
        z += 1;
    }
    if n == 0 {
        return dist;
    }
    let n_obj = pop[0].len();
    let mut r: usize = 0;
    let mut more = true;
    while more
        invariant
            n == pop@.len(),
            n > 0,
            ranks@.len() == n,
            pm == points(pop@),
            comparable(pm),
            n_obj == pm[0].len(),
            dist@.len() == n,
            r <= max_rank,
            more ==> fronts_crowd(reals, pm, ranks@, r as nat, dist@),
            !more ==> fronts_crowd(reals, pm, ranks@, (max_rank + 1) as nat, dist@),
            forall|k: int| 0 <= k < n ==> (#[trigger] ranks@[k]) <= max_rank,
            forall|i: int|
                0 <= i < n && (ranks@[i] < r || !more) && front_positions(
                    ranks@,
                    ranks@[i],
                    n as int,
                ).len() <= 2 ==> (#[trigger] dist@[i]).bits == crate::scalar::INFINITE,
            forall|i: int, m: int|
                0 <= i < n && (ranks@[i] < r || !more) && 0 <= m < n_obj
                    && (#[trigger] extreme(pm, ranks@, m, i))
                    ==> dist@[i].bits == crate::scalar::INFINITE,
        decreases max_rank - r + if more {
            1int
        } else {
            0
        },
    {
        let ghost before = dist@;
        dist = crowd_front(pop, ranks, r, n_obj, dist, reals);
        proof {
            let next = (r + 1) as nat;
            assert(front_crowds(reals, pm, ranks@, (next - 1) as usize, before, dist@));
            assert(fronts_crowd(reals, pm, ranks@, next, dist@));
            assert forall|i: int|
                0 <= i < n && ranks@[i] <= r && front_positions(ranks@, ranks@[i], n as int).len()
                    <= 2 implies (#[trigger] dist@[i]).bits == crate::scalar::INFINITE by {
                if ranks@[i] < r {
                    assert(dist@[i] == before[i]);
                }
            }
            assert forall|i: int, m: int|
                0 <= i < n && ranks@[i] <= r && 0 <= m < n_obj
                    && (#[trigger] extreme(pm, ranks@, m, i)) implies dist@[i].bits
                == crate::scalar::INFINITE by {
                if ranks@[i] < r {
                    assert(dist@[i] == before[i]);
                }
            }
        }
        if r < max_rank {
            r = r + 1;
        } else {
            more = false;
        }
    }
    proof {
        assert forall|i: int, m: int|
            0 <= i < pop@.len() && 0 <= m < pm[i].len()
                && (#[trigger] extreme(pm, ranks@, m, i)) implies dist@[i].bits
            == crate::scalar::INFINITE by {
            assert(pm[i].len() == pm[0].len());
        }
        assert(fronts_crowd(reals, pm, ranks@, (max_rank + 1) as nat, dist@));
        assert(is_crowding(reals, pm, ranks@, dist@));
    }
    dist
}

/// The crowding distances of the front with rank `r`.
fn crowd_front<R: Reals>(
    pop: &Vec<Vec<Scalar>>,
    ranks: &Vec<usize>,
    r: usize,
    n_obj: usize,
    dist: Vec<Scalar>,
    reals: &R,
) -> (out: Vec<Scalar>)
    requires
        pop@.len() > 0,
        ranks@.len() == pop@.len(),
        dist@.len() == pop@.len(),
        comparable(points(pop@)),
        n_obj == points(pop@)[0].len(),
    ensures
        out@.len() == dist@.len(),
        forall|i: int| 0 <= i < out@.len() && ranks@[i] != r ==> #[trigger] out@[i] == dist@[i],
        forall|i: int|
            0 <= i < out@.len() && ranks@[i] == r && front_positions(
                ranks@,
                r,
                pop@.len() as int,
            ).len() <= 2 ==> (#[trigger] out@[i]).bits == crate::scalar::INFINITE,
        forall|i: int, m: int|
            0 <= i < out@.len() && ranks@[i] == r && 0 <= m < n_obj
                && (#[trigger] extreme(points(pop@), ranks@, m, i)) ==> out@[i].bits
                == crate::scalar::INFINITE,
        front_crowds(reals, points(pop@), ranks@, r, dist@, out@),
{
    let ghost pm = points(pop@);
    let ghost n = pop@.len() as int;
    let front = front_members(ranks, r);
    let ghost at = front_positions(ranks@, r, n);
    let ghost start = dist@;
    let mut out = dist;
    if front.len() <= 2 {
        let mut k: usize = 0;
        while k < front.len()
            invariant
                k <= front@.len(),
                out@.len() == n,
                start.len() == n,
                ranks@.len() == n,
                forall|x: int|
                    0 <= x < front@.len() ==> (#[trigger] front@[x]) < n && ranks@[front@[x] as int]
                        == r,
                forall|i: int| 0 <= i < n && ranks@[i] != r ==> #[trigger] out@[i] == start[i],
                forall|x: int|
                    0 <= x < k ==> out@[#[trigger] front@[x] as int].bits
                        == crate::scalar::INFINITE,
            decreases front@.len() - k,
        {
            let i = front[k];
            out[i] = Scalar::infinity();
            k += 1;
        }
        proof {
            assert forall|i: int| 0 <= i < n && ranks@[i] == r implies (#[trigger] out@[i]).bits
                == crate::scalar::INFINITE by {
                let x = choose|x: int| 0 <= x < front@.len() && #[trigger] front@[x] == i;
                assert(out@[front@[x] as int].bits == crate::scalar::INFINITE);
            }
        }
        return out;
    }
    let mut m: usize = 0;
    while m < n_obj
        invariant
            m <= n_obj,
            n == pop@.len(),
            pm == points(pop@),
            comparable(pm),
            n > 0,
            n_obj == pm[0].len(),
            ranks@.len() == n,
            out@.len() == n,
            start.len() == n,
            front@.len() > 2,
            at == front@.map_values(|x: usize| x as int),
            axes_crowd(reals, pm, at, m as nat, start, out@),
            forall|x: int|
                0 <= x < front@.len() ==> (#[trigger] front@[x]) < n && ranks@[front@[x] as int] == r,
            forall|a: int, b: int|
                0 <= a < b < front@.len() ==> #[trigger] front@[a] < #[trigger] front@[b],
            forall|i: int|
                0 <= i < n && #[trigger] ranks@[i] == r ==> exists|k: int|
                    0 <= k < front@.len() && #[trigger] front@[k] == i,
            forall|i: int| 0 <= i < n && ranks@[i] != r ==> #[trigger] out@[i] == start[i],
            forall|i: int, mm: int|
                0 <= i < n && ranks@[i] == r && 0 <= mm < m
                    && (#[trigger] extreme(pm, ranks@, mm, i)) ==> out@[i].bits
                    == crate::scalar::INFINITE,
        decreases n_obj - m,
    {
        let mut keys: Vec<Scalar> = Vec::new();
        let mut k: usize = 0;
        while k < front.len()
            invariant
                k <= front@.len(),
                keys@.len() == k,
                n == pop@.len(),
                pm == points(pop@),
                comparable(pm),
                n > 0,
                m < n_obj,
                n_obj == pm[0].len(),
                forall|x: int| 0 <= x < front@.len() ==> (#[trigger] front@[x]) < n,
                forall|x: int| 0 <= x < k ==> #[trigger] keys@[x] == pm[front@[x] as int][m as int],
                order::all_numbers(keys@),
            decreases front@.len() - k,
        {
            let i = front[k];
            proof {
                assert(pm[i as int] == pop@[i as int]@);
                assert(pm[i as int].len() == pm[0].len());
                assert(order::all_numbers(pm[i as int]));
            }
            keys.push(pop[i][m]);
            k += 1;
        }
        let p = ranking(&keys, Direction::Minimize);
        let len = p.len();
        let first = front[p[0]];
        let last = front[p[len - 1]];
        proof {
            extremes_are_found(pm, ranks@, r, m as int, front@, keys@, p@);
        }
        let lo = keys[p[0]];
        let hi = keys[p[len - 1]];
        let ghost before = out@;
        out[first] = Scalar::infinity();
        out[last] = Scalar::infinity();
        proof {
            assert(keys@ =~= keys_of(pm, at, m as int));
        }
        let mut q: usize = 1;
        while q < len - 1
            invariant
                1 <= q <= len - 1,
                at == front@.map_values(|x: usize| x as int),
                first == front@[p@[0] as int],
                last == front@[p@[len - 1] as int],
                lo == keys@[p@[0] as int],
                hi == keys@[p@[len - 1] as int],
                forall|a: int, b: int|
                    0 <= a < b < front@.len() ==> #[trigger] front@[a] < #[trigger] front@[b],
                forall|x: int|
                    0 <= x < q ==> #[trigger] place_crowds(
                        reals,
                        at,
                        keys@,
                        p@,
                        before,
                        out@,
                        x,
                    ),
                forall|x: int|
                    q <= x < len - 1 ==> out@[front@[#[trigger] p@[x] as int] as int]
                        == before[front@[p@[x] as int] as int],
                len == p@.len(),
                len > 2,
                n == pop@.len(),
                ranks@.len() == n,
                keys@.len() == front@.len(),
                order::is_permutation(p@, keys@.len() as int),
                out@.len() == n,
                before.len() == n,
                first < n,
                last < n,
                out@[first as int].bits == crate::scalar::INFINITE,
                out@[last as int].bits == crate::scalar::INFINITE,
                forall|x: int|
                    0 <= x < front@.len() ==> (#[trigger] front@[x]) < n && ranks@[front@[x] as int]
                        == r,
                forall|i: int| 0 <= i < n && ranks@[i] != r ==> #[trigger] out@[i] == before[i],
                forall|i: int|
                    0 <= i < n && before[i].bits == crate::scalar::INFINITE ==> (
                    #[trigger] out@[i]).bits == crate::scalar::INFINITE,
            decreases len - q,
        {
            let i = front[p[q]];
            let ghost held = out@;
            if out[i].bits != crate::scalar::INFINITE {
                let below = keys[p[q - 1]];
                let above = keys[p[q + 1]];
                let d = reals.crowd(out[i], below, above, lo, hi);
                out[i] = d;
            }
            proof {
                assert(place_crowds(reals, at, keys@, p@, before, out@, q as int));
                assert forall|x: int| 0 <= x < len && x != q implies out@[front@[
                #[trigger] p@[x] as int] as int] == held[front@[p@[x] as int] as int] by {
                    places_differ(front@, p@, x, q as int);
                }
                assert forall|x: int| 0 <= x < q + 1 implies #[trigger] place_crowds(
                    reals,
                    at,
                    keys@,
                    p@,
                    before,
                    out@,
                    x,
                ) by {
                    if x < q {
                        assert(place_crowds(reals, at, keys@, p@, before, held, x));
                        assert(out@[front@[p@[x] as int] as int] == held[front@[p@[x] as int] as int]);
                    }
                }
            }
            q += 1;
        }
        proof {
            assert(place_crowds(reals, at, keys@, p@, before, out@, len - 1));
            assert(order::is_ranking(keys@, Direction::Minimize, p@));
            let next = (m + 1) as nat;
            assert(axis_crowds(reals, at, keys_of(pm, at, next - 1), before, out@));
            assert(axes_crowd(reals, pm, at, next, start, out@));
            assert forall|i: int, mm: int|
                0 <= i < n && ranks@[i] == r && 0 <= mm < m + 1
                    && (#[trigger] extreme(pm, ranks@, mm, i)) implies out@[i].bits
                == crate::scalar::INFINITE by {
                if mm < m {
                    assert(before[i].bits == crate::scalar::INFINITE);
                } else if lowest_of_front(pm, ranks@, mm, i) {
                    assert(i == first);
                } else {
                    assert(i == last);
                }
            }
        }
        m += 1;
    }
    out
}

/// Different places of a ranking are different individuals.
proof fn places_differ(front: Seq<usize>, p: Seq<usize>, x: int, y: int)
    requires
        order::is_permutation(p, front.len() as int),
        0 <= x < p.len(),
        0 <= y < p.len(),
        x != y,
        forall|a: int, b: int|
            0 <= a < b < front.len() ==> #[trigger] front[a] < #[trigger] front[b],
    ensures
        front[p[x] as int] != front[p[y] as int],
{
    let (a, b) = (p[x] as int, p[y] as int);
    if x < y {
        assert(p[x] != p[y]);
    } else {
        assert(p[y] != p[x]);
    }
    if a < b {
        assert(front[a] < front[b]);
    } else {
        assert(front[b] < front[a]);
    }
}

/// The ends of the ranking of a front are its extremes.
proof fn extremes_are_found(
    pop: Seq<Seq<Scalar>>,
    ranks: Seq<usize>,
    r: usize,
    m: int,
    front: Seq<usize>,
    keys: Seq<Scalar>,
    p: Seq<usize>,
)
    requires
        ranks.len() == pop.len(),
        front.len() > 0,
        keys.len() == front.len(),
        order::is_ranking(keys, Direction::Minimize, p),
        forall|x: int| 0 <= x < keys.len() ==> #[trigger] keys[x] == pop[front[x] as int][m],
        forall|x: int|
            0 <= x < front.len() ==> (#[trigger] front[x]) < pop.len() && ranks[front[x] as int] == r,
        forall|a: int, b: int|
            0 <= a < b < front.len() ==> #[trigger] front[a] < #[trigger] front[b],
        forall|i: int|
            0 <= i < pop.len() && #[trigger] ranks[i] == r ==> exists|k: int|
                0 <= k < front.len() && #[trigger] front[k] == i,
    ensures
        forall|i: int|
            0 <= i < pop.len() && ranks[i] == r && #[trigger] lowest_of_front(pop, ranks, m, i)
                ==> i == front[p[0] as int],
        forall|i: int|
            0 <= i < pop.len() && ranks[i] == r && #[trigger] highest_of_front(pop, ranks, m, i)
                ==> i == front[p[p.len() - 1] as int],
{
    let last = p.len() - 1;
    assert forall|i: int|
        0 <= i < pop.len() && ranks[i] == r && #[trigger] lowest_of_front(pop, ranks, m, i)
            implies i == front[p[0] as int] by {
        let x = choose|x: int| 0 <= x < front.len() && #[trigger] front[x] == i;
        order::permutation_is_onto(p, keys.len() as int, x);
        let a = choose|a: int| 0 <= a < p.len() && #[trigger] p[a] == x;
        if a > 0 {
            let y = p[0] as int;
            assert(order::goes_before(keys, Direction::Minimize, y, x));
            let j = front[y] as int;
            assert(keys[y] == pop[j][m] && keys[x] == pop[i][m]);
            if y < x {
                assert(front[y] < front[x]);
            } else {
                assert(front[x] < front[y]);
            }
            assert(pop[i][m].key() < pop[j][m].key() || (pop[i][m].key() == pop[j][m].key() && i
                < j));
        }
    }
    assert forall|i: int|
        0 <= i < pop.len() && ranks[i] == r && #[trigger] highest_of_front(pop, ranks, m, i)
            implies i == front[p[last] as int] by {
        let x = choose|x: int| 0 <= x < front.len() && #[trigger] front[x] == i;
        order::permutation_is_onto(p, keys.len() as int, x);
        let a = choose|a: int| 0 <= a < p.len() && #[trigger] p[a] == x;
        if a < last {
            let y = p[last] as int;
            assert(order::goes_before(keys, Direction::Minimize, x, y));
            let j = front[y] as int;
            assert(keys[y] == pop[j][m] && keys[x] == pop[i][m]);
            if y < x {
                assert(front[y] < front[x]);
            } else {
                assert(front[x] < front[y]);
            }
            assert(pop[j][m].key() < pop[i][m].key() || (pop[i][m].key() == pop[j][m].key() && j
                < i));
        }
    }
}

/// Whether individual `a` survives before `b`: on a lower front, or more isolated on the same,
/// or earlier.
pub open spec fn fitter(ranks: Seq<usize>, crowd: Seq<Scalar>, a: int, b: int) -> bool {
    ranks[a] < ranks[b] || (ranks[a] == ranks[b] && (crowd[a].key() > crowd[b].key() || (
    crowd[a].key() == crowd[b].key() && a < b)))
}

/// Whether individual `a` moves in front of individual `b`: it stands on a lower front, or is more
/// isolated on the same.
pub open spec fn outlives(ranks: Seq<usize>, crowd: Seq<Scalar>, a: int, b: int) -> bool {
    ranks[a] < ranks[b] || (ranks[a] == ranks[b] && crowd[b].less(crowd[a]))
}

/// Where individual `i` ends up in a list when it moves forward from place `at` for as long as it
/// outlives the one before it.
pub open spec fn survival_place(
    ranks: Seq<usize>,
    crowd: Seq<Scalar>,
    list: Seq<usize>,
    i: int,
    at: nat,
) -> nat
    decreases at,
{
    if at > 0 && outlives(ranks, crowd, i, list[at - 1] as int) {
        survival_place(ranks, crowd, list, i, (at - 1) as nat)
    } else {
        at
    }
}

/// The first `n` individuals, each moved to its place among those before it.
pub open spec fn survivors(ranks: Seq<usize>, crowd: Seq<Scalar>, n: nat) -> Seq<usize>
    decreases n,
{
    if n == 0 {
        Seq::empty()
    } else {
        let list = survivors(ranks, crowd, (n - 1) as nat);
        list.insert(
            survival_place(ranks, crowd, list, n - 1, list.len()) as int,
            (n - 1) as usize,
        )
    }
}

/// Whether `p` lists all individuals, fittest first when no crowding distance is a NaN.
pub open spec fn is_survival(ranks: Seq<usize>, crowd: Seq<Scalar>, p: Seq<usize>) -> bool {
    &&& p == survivors(ranks, crowd, ranks.len())
    &&& order::is_permutation(p, ranks.len() as int)
    &&& order::all_numbers(crowd) ==> forall|a: int, b: int|
        0 <= a < b < p.len() ==> fitter(
            ranks,
            crowd,
            #[trigger] p[a] as int,
            #[trigger] p[b] as int,
        )
}

/// All individuals, fittest first when no crowding distance is a NaN.
pub fn survival_order(ranks: &Vec<usize>, crowd: &Vec<Scalar>) -> (p: Vec<usize>)
    requires
        crowd@.len() == ranks@.len(),
    ensures
        is_survival(ranks@, crowd@, p@),
{
    let mut p: Vec<usize> = Vec::new();
    let mut i: usize = 0;
    while i < ranks.len()
        invariant
            i <= ranks@.len(),
            crowd@.len() == ranks@.len(),
            order::is_permutation(p@, i as int),
            p@ == survivors(ranks@, crowd@, i as nat),
            order::all_numbers(crowd@) ==> forall|a: int, b: int|
                0 <= a < b < p@.len() ==> fitter(
                    ranks@,
                    crowd@,
                    #[trigger] p@[a] as int,
                    #[trigger] p@[b] as int,
                ),
        decreases ranks@.len() - i,
    {
        let mut at: usize = p.len();
        let mut going = true;
        while at > 0 && going
            invariant
                at <= p@.len(),
                i < ranks@.len(),
                crowd@.len() == ranks@.len(),
                order::is_permutation(p@, i as int),
                survival_place(ranks@, crowd@, p@, i as int, p@.len()) == survival_place(
                    ranks@,
                    crowd@,
                    p@,
                    i as int,
                    at as nat,
                ),
                !going ==> at > 0 && !outlives(ranks@, crowd@, i as int, p@[at - 1] as int),
                order::all_numbers(crowd@) ==> forall|b: int|
                    at <= b < p@.len() ==> fitter(
                        ranks@,
                        crowd@,
                        i as int,
                        #[trigger] p@[b] as int,
                    ),
                !going && order::all_numbers(crowd@) ==> at > 0 && fitter(
                    ranks@,
                    crowd@,
                    p@[at - 1] as int,
                    i as int,
                ),
            decreases at + if going {
                1int
            } else {
                0
            },
        {
            let o = p[at - 1];
            if ranks[i] < ranks[o] || (ranks[i] == ranks[o] && crowd[o].lt(&crowd[i])) {
                at -= 1;
            } else {
                going = false;
            }
        }
        let ghost before = p@;
        p.insert(at, i);
        proof {
            let after = before.insert(at as int, i);
            assert(after == survivors(ranks@, crowd@, (i + 1) as nat));
            assert forall|a: int, b: int| 0 <= a < b < after.len() implies #[trigger] after[a]
                != #[trigger] after[b] by {
                let x = if a < at {
                    a
                } else {
                    a - 1
                };
                let y = if b < at {
                    b
                } else {
                    b - 1
                };
                if a == at {
                    assert(before[y] < i);
                } else if b == at {
                    assert(before[x] < i);
                } else {
                    assert(before[x] != before[y]);
                }
            }
            assert forall|a: int| 0 <= a < after.len() implies (#[trigger] after[a]) < i + 1 by {
                let x = if a < at {
                    a
                } else {
                    a - 1
                };
                if a != at {
                    assert(before[x] < i);
                }
            }
            if order::all_numbers(crowd@) {
                assert forall|a: int, b: int| 0 <= a < b < after.len() implies fitter(
                    ranks@,
                    crowd@,
                    #[trigger] after[a] as int,
                    #[trigger] after[b] as int,
                ) by {
                    let x = if a < at {
                        a
                    } else {
                        a - 1
                    };
                    let y = if b < at {
                        b
                    } else {
                        b - 1
                    };
                    if a == at {
                        assert(after[b] == before[y]);
                    } else if b == at {
                        assert(after[a] == before[x]);
                        if x < at - 1 {
                            assert(fitter(
                                ranks@,
                                crowd@,
                                before[x] as int,
                                before[at - 1] as int,
                            ));
                        }
                    } else {
                        assert(after[a] == before[x]);
                        assert(after[b] == before[y]);
                    }
                }
            }
        }
        i += 1;
    }
    p
}

/// Binary tournament within the elite: two draws, and the lower rank wins; ties break toward
/// higher crowding.
pub open spec fn duel(
    elite: Seq<usize>,
    ranks: Seq<usize>,
    crowd: Seq<Scalar>,
    rng: TrialRng,
) -> (usize, TrialRng) {
    let n = elite.len() as u64;
    let a = elite[rng.pick(n) as int];
    let r = rng.past_pick(n);
    let b = elite[r.pick(n) as int];
    let wins = ranks[a as int] < ranks[b as int] || (ranks[a as int] == ranks[b as int] && (
    crowd[b as int].less(crowd[a as int]) || crowd[b as int].same(crowd[a as int])));
    (if wins {
        a
    } else {
        b
    }, r.past_pick(n))
}

/// Binary tournament within the elite.
pub fn tournament(
    elite: &Vec<usize>,
    ranks: &Vec<usize>,
    crowd: &Vec<Scalar>,
    rng: &mut TrialRng,
) -> (winner: usize)
    requires
        elite@.len() > 0,
        crowd@.len() == ranks@.len(),
        forall|i: int| 0 <= i < elite@.len() ==> (#[trigger] elite@[i]) < ranks@.len(),
    ensures
        (winner, *final(rng)) == duel(elite@, ranks@, crowd@, *old(rng)),
        winner < ranks@.len(),
{
    let a = elite[rng.below(elite.len() as u64) as usize];
    let b = elite[rng.below(elite.len() as u64) as usize];
    if ranks[a] < ranks[b] || (ranks[a] == ranks[b] && crowd[b].le(&crowd[a])) {
        a
    } else {
        b
    }
}

/// A value with lower better, whatever its direction.
pub open spec fn lower_better(d: Direction, v: Scalar) -> Scalar {
    match d {
        Direction::Minimize => v,
        Direction::Maximize => v.flipped(),
    }
}

/// The objective vector of a trial with lower better on every axis, if it has every objective.
pub open spec fn objective_vec(
    objectives: Seq<(Seq<char>, Direction)>,
    t: TrialModel,
) -> Seq<Scalar> {
    Seq::new(
        objectives.len(),
        |i: int| lower_better(objectives[i].1, t.final_metrics->0[objectives[i].0]),
    )
}

/// Selects completed trials with a finite value for every objective.
pub open spec fn candidate(objectives: Seq<(Seq<char>, Direction)>) -> spec_fn(
    TrialModel,
) -> Option<(Assignment, Seq<Scalar>)> {
    |t: TrialModel|
        if t.state == TrialState::Complete && scores_all(objectives, t) {
            Some((t.params, objective_vec(objectives, t)))
        } else {
            None
        }
}

/// Whether a trial has a finite value for every objective.
pub open spec fn scores_all(objectives: Seq<(Seq<char>, Direction)>, t: TrialModel) -> bool {
    forall|i: int|
        0 <= i < objectives.len() ==> (t.value((#[trigger] objectives[i]).0) matches Some(v)
            && v.finite())
}

/// A multi-objective sampler implementing NSGA-II selection.
#[derive(Debug)]
pub struct Nsga2Sampler {
    objectives: Vec<(String, Direction)>,
    seed: u64,
    n_startup: usize,
    population_size: usize,
    mutation_prob: Scalar,
    mutation_scale: Scalar,
}

/// What an [`Nsga2Sampler`] stands for in contracts.
pub struct Nsga2Model {
    /// Named objectives and their directions.
    pub objectives: Seq<(Seq<char>, Direction)>,
    /// The base seed.
    pub seed: u64,
    /// Random trials before selection begins.
    pub n_startup: usize,
    /// The elite mating-pool size.
    pub population_size: usize,
    /// Per-parameter mutation probability.
    pub mutation_prob: Scalar,
    /// Mutation step size.
    pub mutation_scale: Scalar,
}

impl View for Nsga2Sampler {
    type V = Nsga2Model;

    closed spec fn view(&self) -> Nsga2Model {
        Nsga2Model {
            objectives: storage::directions_model(self.objectives@),
            seed: self.seed,
            n_startup: self.n_startup,
            population_size: self.population_size,
            mutation_prob: self.mutation_prob,
            mutation_scale: self.mutation_scale,
        }
    }
}

/// Whether a population was sorted into fronts, spread out and ordered for survival.
pub open spec fn is_selection(
    pop: Seq<Seq<Scalar>>,
    ranks: Seq<usize>,
    crowd: Seq<Scalar>,
    fittest: Seq<usize>,
) -> bool {
    &&& is_layering(pop, ranks)
    &&& keeps_ends(pop, ranks, crowd)
    &&& is_survival(ranks, crowd, fittest)
}

impl Nsga2Model {
    /// The objective vectors that a history offers.
    pub open spec fn archive(self, history: Seq<TrialModel>) -> Seq<Seq<Scalar>> {
        models::pick(history, candidate(self.objectives)).map_values(
            |x: (Assignment, Seq<Scalar>)| x.1,
        )
    }

    /// Whether a history is too short to select from.
    pub open spec fn starting(self, history: Seq<TrialModel>) -> bool {
        let n = models::pick(history, candidate(self.objectives)).len();
        n < self.n_startup || n == 0
    }

    /// The individuals that may mate.
    pub open spec fn elite(self, fittest: Seq<usize>) -> Seq<usize> {
        let keep = if self.population_size < 2 {
            2
        } else {
            self.population_size as int
        };
        if fittest.len() > keep {
            fittest.take(keep)
        } else {
            fittest
        }
    }

    /// The parents that a selection yields, and the position behind their choice: the winners of
    /// two binary tournaments within the elite, one after the other on the stream of this
    /// suggestion.
    pub open spec fn couple(
        self,
        history: Seq<TrialModel>,
        ranks: Seq<usize>,
        crowd: Seq<Scalar>,
        fittest: Seq<usize>,
    ) -> (Parents, TrialRng) {
        let pool = models::pick(history, candidate(self.objectives));
        let start = TrialRng {
            seed: sampler::suggestion_seed(self.seed, history.len() as int),
            word: 0,
        };
        let first = duel(self.elite(fittest), ranks, crowd, start);
        let second = duel(self.elite(fittest), ranks, crowd, first.1);
        (
            Parents {
                heads: pool[first.0 as int].0,
                tails: pool[second.0 as int].0,
                share: false,
            },
            second.1,
        )
    }

    /// Whether `p` is a child of the parents that a selection yields.
    pub open spec fn bears<R: Reals>(
        self,
        reals: &R,
        space: Seq<DefModel>,
        chosen: (Parents, TrialRng),
        p: Assignment,
    ) -> bool {
        exists|after: TrialRng| #[trigger]
            evolution::is_child(
                reals,
                space,
                chosen.0,
                self.mutation_prob,
                self.mutation_scale,
                chosen.1,
                p,
                after,
            )
    }

    /// Whether `p` is a child of two parents of the elite that a history yields.
    pub open spec fn breeds<R: Reals>(
        self,
        reals: &R,
        space: Seq<DefModel>,
        history: Seq<TrialModel>,
        p: Assignment,
    ) -> bool {
        exists|ranks: Seq<usize>, crowd: Seq<Scalar>, fittest: Seq<usize>| #[trigger]
            is_selection(self.archive(history), ranks, crowd, fittest) && is_crowding(
                reals,
                self.archive(history),
                ranks,
                crowd,
            ) && self.bears(
                reals,
                space,
                self.couple(history, ranks, crowd, fittest),
                p,
            )
    }
}

/// The elite is elitist: whoever is left out stands on no lower front than anyone kept, and is
/// no more isolated than those kept of its own front.
pub proof fn law_elite_outranks_the_rest(
    model: Nsga2Model,
    pop: Seq<Seq<Scalar>>,
    ranks: Seq<usize>,
    crowd: Seq<Scalar>,
    fittest: Seq<usize>,
    kept: int,
    left_out: int,
)
    requires
        is_selection(pop, ranks, crowd, fittest),
        order::all_numbers(crowd),
        0 <= kept < model.elite(fittest).len() <= left_out < fittest.len(),
    ensures
        ({
            let (a, b) = (model.elite(fittest)[kept] as int, fittest[left_out] as int);
            ranks[a] <= ranks[b] && (ranks[a] == ranks[b] ==> crowd[a].key() >= crowd[b].key())
        }),
{
    assert(model.elite(fittest)[kept] == fittest[kept]);
    assert(fitter(ranks, crowd, fittest[kept] as int, fittest[left_out] as int));
}

impl Nsga2Sampler {
    #[verifier::type_invariant]
    spec fn probability_makes_sense(self) -> bool {
        self.mutation_prob.probability()
    }

    /// A sampler for the given named objectives and directions: twelve random trials, an elite
    /// of twenty-four, and each parameter mutated with probability one tenth.
    pub fn new(objectives: Vec<(String, Direction)>, seed: u64) -> (s: Self)
        ensures
            s@ == (Nsga2Model {
                objectives: storage::directions_model(objectives@),
                seed,
                n_startup: 12,
                population_size: 24,
                mutation_prob: Scalar { bits: 0x3fb9_9999_9999_999a },
                mutation_scale: Scalar { bits: 0x3fc3_3333_3333_3333 },
            }),
    {
        Nsga2Sampler {
            objectives,
            seed,
            n_startup: 12,
            population_size: 24,
            mutation_prob: Scalar::from_bits(0x3fb9_9999_9999_999a),
            mutation_scale: Scalar::from_bits(0x3fc3_3333_3333_3333),
        }
    }

    /// Gaussian mutation step size, as a fraction of each parameter's range (at least zero).
    pub fn with_mutation_scale(self, scale: Scalar) -> (s: Self)
        ensures
            s@ == (Nsga2Model {
                mutation_scale: if (Scalar { bits: 0 }).less(scale) {
                    scale
                } else {
                    Scalar { bits: 0 }
                },
                ..self@
            }),
    {
        proof {
            use_type_invariant(&self);
        }
        Nsga2Sampler { mutation_scale: if Scalar::zero().lt(&scale) {
            scale
        } else {
            Scalar::zero()
        }, ..self }
    }

    /// Number of random trials before evolutionary selection begins (default 12).
    pub fn with_startup_trials(self, n: usize) -> (s: Self)
        ensures
            s@ == (Nsga2Model { n_startup: n, ..self@ }),
    {
        proof {
            use_type_invariant(&self);
        }
        Nsga2Sampler { n_startup: n, ..self }
    }

    /// The elite mating-pool size retained across the archive (default 24, at least 2).
    pub fn with_population_size(self, n: usize) -> (s: Self)
        ensures
            s@ == (Nsga2Model {
                population_size: if n < 2 {
                    2
                } else {
                    n
                },
                ..self@
            }),
    {
        proof {
            use_type_invariant(&self);
        }
        Nsga2Sampler { population_size: if n < 2 {
            2
        } else {
            n
        }, ..self }
    }

    /// Per-parameter mutation probability (0.1 unless set), moved into `[0, 1]`.
    pub fn with_mutation_prob(self, p: Scalar) -> (s: Self)
        requires
            !p.nan(),
        ensures
            s@ == (Nsga2Model {
                mutation_prob: p.clamped(Scalar { bits: 0 }, Scalar { bits: ONE }),
                ..self@
            }),
    {
        proof {
            use_type_invariant(&self);
        }
        Nsga2Sampler { mutation_prob: p.clamp(&Scalar::zero(), &Scalar::from_bits(ONE)), ..self }
    }

    /// The objective vector of a record with lower better on every axis, or `None` if any
    /// objective is missing or not finite.
    fn scores(&self, record: &TrialRecord) -> (r: Option<Vec<Scalar>>)
        ensures
            match r {
                Some(v) => scores_all(self@.objectives, record@) && v@ == objective_vec(
                    self@.objectives,
                    record@,
                ) && order::all_numbers(v@),
                None => !scores_all(self@.objectives, record@),
            },
    {
        let mut out: Vec<Scalar> = Vec::new();
        let mut i: usize = 0;
        let ghost objs = self@.objectives;
        while i < self.objectives.len()
            invariant
                i <= self.objectives@.len(),
                objs == storage::directions_model(self.objectives@),
                out@.len() == i,
                forall|k: int|
                    0 <= k < i ==> (record@.value((#[trigger] objs[k]).0) matches Some(v)
                        && v.finite() && out@[k] == lower_better(objs[k].1, v) && out@[k].finite()),
            decreases self.objectives@.len() - i,
        {
            proof {
                assert(objs[i as int] == (self.objectives@[i as int].0@, self.objectives@[i as int].1));
            }
            match record.final_value(self.objectives[i].0.as_str()) {
                Some(v) => {
                    if !v.is_finite() {
                        return None;
                    }
                    match self.objectives[i].1 {
                        Direction::Minimize => {
                            out.push(v);
                        },
                        Direction::Maximize => {
                            out.push(v.neg());
                        },
                    }
                },
                None => {
                    return None;
                },
            }
            i += 1;
        }
        proof {
            assert(out@ =~= objective_vec(objs, record@));
        }
        Some(out)
    }

    /// The archive: where each candidate stands in the history, and its objective vector.
    fn archive(&self, history: &TrialHistory) -> (r: (Vec<usize>, Vec<Vec<Scalar>>))
        ensures
            r.0@.len() == r.1@.len(),
            comparable(points(r.1@)),
            r.0@.len() == models::pick(history@, candidate(self@.objectives)).len(),
            forall|k: int|
                0 <= k < r.0@.len() ==> (#[trigger] r.0@[k]) < history@.len() && models::pick(
                    history@,
                    candidate(self@.objectives),
                )[k] == (history@[r.0@[k] as int].params, r.1@[k]@),
    {
        let records = history.records();
        let ghost hm = history@;
        let ghost f = candidate(self@.objectives);
        let ghost width = self@.objectives.len();
        let mut at: Vec<usize> = Vec::new();
        let mut pop: Vec<Vec<Scalar>> = Vec::new();
        let mut i: usize = 0;
        while i < records.len()
            invariant
                i <= records@.len(),
                records@.len() == hm.len(),
                f == candidate(self@.objectives),
                width == self@.objectives.len(),
                forall|k: int| 0 <= k < records@.len() ==> (#[trigger] records@[k])@ == hm[k],
                at@.len() == pop@.len(),
                at@.len() == models::pick(hm.take(i as int), f).len(),
                forall|k: int|
                    0 <= k < pop@.len() ==> (#[trigger] pop@[k])@.len() == width
                        && order::all_numbers(pop@[k]@),
                forall|k: int|
                    0 <= k < at@.len() ==> (#[trigger] at@[k]) < i && models::pick(
                        hm.take(i as int),
                        f,
                    )[k] == (hm[at@[k] as int].params, pop@[k]@),
            decreases records@.len() - i,
        {
            proof {
                models::pick_step(hm, i as int, f);
                assert(records@[i as int]@ == hm[i as int]);
            }
            if records[i].state == TrialState::Complete {
                if let Some(v) = self.scores(&records[i]) {
                    at.push(i);
                    pop.push(v);
                }
            }
            i += 1;
        }
        proof {
            models::pick_whole(hm, f);
        }
        (at, pop)
    }

    /// Build a child of two parents in declaration order: uniform crossover, a fresh draw when
    /// the chosen parent lacks the parameter, then mutation.
    pub fn cross<R: Reals>(
        &self,
        space: &SearchSpace,
        a: &ParamSet,
        b: &ParamSet,
        rng: &mut TrialRng,
        reals: &R,
    ) -> (child: ParamSet)
        requires
            space::drawable_space(space@),
        ensures
            space::space_ordered(space@) ==> space::exactly_active(space@, child@),
            space::space_ordered(space@) && space::values_fit(space@, a@) && space::values_fit(
                space@,
                b@,
            ) ==> space::legal(space@, child@),
            evolution::is_child(
                reals,
                space@,
                (Parents { heads: a@, tails: b@, share: false }),
                self@.mutation_prob,
                self@.mutation_scale,
                *old(rng),
                child@,
                *final(rng),
            ),
    {
        proof {
            use_type_invariant(self);
        }
        let mut child = ParamSet::new();
        let ghost parents = Parents { heads: a@, tails: b@, share: false };
        let ghost mut stages: Seq<(Assignment, TrialRng)> = seq![(child@, *rng)];
        proof {
            assert(child@ =~= Map::empty());
        }
        let defs = space.params();
        let mut i: usize = 0;
        let ghost sound = space::space_ordered(space@);
        let ghost fit = sound && space::values_fit(space@, a@) && space::values_fit(space@, b@);
        while i < defs.len()
            invariant
                i <= space@.len(),
                defs@.len() == space@.len(),
                forall|k: int| 0 <= k < defs@.len() ==> (#[trigger] defs@[k])@ == space@[k],
                space::drawable_space(space@),
                sound == space::space_ordered(space@),
                fit == (sound && space::values_fit(space@, a@) && space::values_fit(space@, b@)),
                sound ==> space::exact_prefix(space@, i as int, child@),
                fit ==> space::fits_prefix(space@, i as int, child@),
                self.mutation_prob.probability(),
                parents == (Parents { heads: a@, tails: b@, share: false }),
                stages.len() == i + 1,
                stages.last() == (child@, *rng),
                evolution::is_growth(
                    reals,
                    space@,
                    parents,
                    self.mutation_prob,
                    self.mutation_scale,
                    *old(rng),
                    stages,
                ),
            decreases defs@.len() - i,
        {
            let def = &defs[i];
            proof {
                assert(def@ == space@[i as int]);
            }
            if SearchSpace::is_active(def, &child) {
                let from = if rng.coin() {
                    a.get(def.name.as_str())
                } else {
                    b.get(def.name.as_str())
                };
                let value = gene(
                    &def.distribution,
                    from,
                    self.mutation_prob,
                    self.mutation_scale,
                    rng,
                    reals,
                );
                proof {
                    if sound {
                        sampler::legal_insert(space@, i as int, child@, value@);
                    }
                    let next = (child@.insert(def@.name, value@), *rng);
                    evolution::growth_step(
                        reals,
                        space@,
                        parents,
                        self.mutation_prob,
                        self.mutation_scale,
                        *old(rng),
                        stages,
                        next,
                    );
                    stages = stages.push(next);
                }
                child.insert(def.name.as_str(), value);
            } else {
                proof {
                    if sound {
                        sampler::legal_skip(space@, i as int, child@);
                    }
                    let next = (child@, *rng);
                    evolution::growth_step(
                        reals,
                        space@,
                        parents,
                        self.mutation_prob,
                        self.mutation_scale,
                        *old(rng),
                        stages,
                        next,
                    );
                    stages = stages.push(next);
                }
            }
            i += 1;
        }
        proof {
            assert(evolution::is_growth(
                reals,
                space@,
                parents,
                self.mutation_prob,
                self.mutation_scale,
                *old(rng),
                stages,
            ));
        }
        child
    }
}

impl Named for Nsga2Sampler {
    open spec fn label(&self) -> Seq<char> {
        "nsga2"@
    }

    fn name(&self) -> (r: &'static str) {
        "nsga2"
    }
}

impl<R: Reals> Sampler<R> for Nsga2Sampler {
    open spec fn proposes(
        &self,
        reals: &R,
        space: SpaceModel,
        history: HistoryModel,
        p: Assignment,
        after: Self,
    ) -> bool {
        &&& after == *self
        &&& space::space_ordered(space) ==> space::exactly_active(space, p)
        &&& space::space_ordered(space) && (forall|i: int|
            0 <= i < history.len() ==> space::values_fit(space, (#[trigger] history[i]).params))
            ==> space::legal(space, p)
        &&& if self@.starting(history) {
            sampler::suggests_at_random(reals, space, self@.seed, history.len() as int, p)
        } else {
            self@.breeds(reals, space, history, p)
        }
    }

    open spec fn observes(&self, trial: TrialModel, after: Self) -> bool {
        after == *self
    }

    fn suggest(
        &mut self,
        space: &SearchSpace,
        history: &TrialHistory,
        reals: &R,
    ) -> (p: ParamSet) {
        let mut rng = suggestion_rng(self.seed, history.len());
        let (at, pop) = self.archive(history);
        if at.len() < self.n_startup || at.len() == 0 {
            return RandomSampler::sample_space(space, &mut rng, reals);
        }
        let ranks = non_dominated_ranks(&pop);
        let crowd = crowding_distances(&pop, &ranks, reals);
        let mut elite = survival_order(&ranks, &crowd);
        let ghost fittest = elite@;
        let keep: usize = if self.population_size < 2 {
            2
        } else {
            self.population_size
        };
        if elite.len() > keep {
            elite.truncate(keep);
        }
        let first = tournament(&elite, &ranks, &crowd, &mut rng);
        let second = tournament(&elite, &ranks, &crowd, &mut rng);
        let ghost last = rng;
        let a = at[first];
        let b = at[second];
        let records = history.records();
        proof {
            assert(records@[a as int]@ == history@[a as int]);
            assert(records@[b as int]@ == history@[b as int]);
        }
        let child = self.cross(
            space,
            &records[a].params,
            &records[b].params,
            &mut rng,
            reals,
        );
        proof {
            let pool = models::pick(history@, candidate(self@.objectives));
            let (i, j) = (first as int, second as int);
            assert(pool[i] == (history@[at@[i] as int].params, pop@[i]@));
            assert(pool[j] == (history@[at@[j] as int].params, pop@[j]@));
            let chosen = old(self)@.couple(history@, ranks@, crowd@, fittest);
            assert(elite@ =~= self@.elite(fittest));
            assert forall|k: int| 0 <= k < pop@.len() implies points(pop@)[k] == self@.archive(
                history@,
            )[k] by {
                assert(at@[k] < history@.len());
            }
            assert(points(pop@) =~= self@.archive(history@));
            assert(is_selection(old(self)@.archive(history@), ranks@, crowd@, fittest));
            assert(chosen == (
                Parents {
                    heads: records@[a as int].params@,
                    tails: records@[b as int].params@,
                    share: false,
                },
                last,
            ));
            assert(evolution::is_child(
                reals,
                space@,
                chosen.0,
                old(self)@.mutation_prob,
                old(self)@.mutation_scale,
                chosen.1,
                child@,
                rng,
            ));
        }
        child
    }

    fn on_trial_complete(&mut self, trial: &TrialRecord) {
    }
}

/// During its startup, the sampler suggests what random sampling from the same seed may suggest.
pub proof fn law_startup_is_random_sampling<R: Reals>(
    s: Nsga2Sampler,
    random: RandomSampler,
    reals: &R,
    space: SpaceModel,
    history: HistoryModel,
    p: Assignment,
    after: Nsga2Sampler,
)
    requires
        s.proposes(reals, space, history, p, after),
        s@.starting(history),
        random.seed() == s@.seed,
    ensures
        random.proposes(reals, space, history, p, random),
{
}

/// A better value stands lower in the objective vector, whatever the direction.
pub proof fn law_better_is_lower(d: Direction, a: Scalar, b: Scalar)
    ensures
        d.better(a, b) <==> lower_better(d, a).less(lower_better(d, b)),
{
    crate::scalar::flipping_reverses(a, b);
}

/// The winner of a tournament is one of the two drawn, and not the one that stands on the higher
/// front, nor the more crowded one of the same front.
pub proof fn law_tournaments_prefer_low_fronts_and_room(
    elite: Seq<usize>,
    ranks: Seq<usize>,
    crowd: Seq<Scalar>,
    rng: TrialRng,
)
    ensures
        ({
            let n = elite.len() as u64;
            let (a, b) = (
                elite[rng.pick(n) as int] as int,
                elite[rng.past_pick(n).pick(n) as int] as int,
            );
            let (w, after) = duel(elite, ranks, crowd, rng);
            &&& w == a || w == b
            &&& ranks[w as int] <= ranks[a] && ranks[w as int] <= ranks[b]
            &&& ranks[a] == ranks[b] ==> !crowd[w as int].less(crowd[a]) && (crowd[a].nan()
                || crowd[b].nan() || !crowd[w as int].less(crowd[b]))
            &&& after == rng.past_pick(n).past_pick(n)
        }),
{
}

/// A solution ranks behind all that dominate it, and right behind one of them: every front but the
/// first has its dominators on the front before it.
pub proof fn law_solutions_rank_behind_their_dominators(
    pop: Seq<Seq<Scalar>>,
    ranks: Seq<usize>,
    i: int,
    j: int,
)
    requires
        is_layering(pop, ranks),
        0 <= i < pop.len(),
        0 <= j < pop.len(),
    ensures
        below_all(pop[j], pop[i]) ==> ranks[j] < ranks[i],
        ranks[i] > 0 ==> exists|k: int|
            0 <= k < pop.len() && ranks[k] == ranks[i] - 1 && #[trigger] below_all(
                pop[k],
                pop[i],
            ),
{
    assert(ranks[i] > 0 ==> has_parent(pop, ranks, i));
}

} // verus!
