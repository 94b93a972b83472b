//! Laws of crowding: what the room around a solution is measured by.

use vstd::prelude::*;
use crate::metrics::Direction;
use crate::reals::Reals;
use crate::scalar::Scalar;
#[allow(unused_imports)]
use crate::nsga2;
#[allow(unused_imports)]
use crate::order;
#[allow(unused_imports)]
use crate::reals;

verus! {

/// Whether all values of a population are numbers.
pub open spec fn all_known(pop: Seq<Seq<Scalar>>) -> bool {
    forall|i: int, m: int|
        0 <= i < pop.len() && 0 <= m < pop[0].len() ==> !(#[trigger] pop[i][m]).nan()
}

/// Whether `j` is a solution on the front of `i`.
pub open spec fn on_front(ranks: Seq<usize>, i: int, j: int) -> bool {
    0 <= j < ranks.len() && ranks[j] == ranks[i]
}

/// Whether `a` and `b` are the nearest of their front on either side of `i` on an axis, and `first`
/// and `last` its ends there.
pub open spec fn surround(
    pop: Seq<Seq<Scalar>>,
    ranks: Seq<usize>,
    i: int,
    m: int,
    a: int,
    b: int,
    first: int,
    last: int,
) -> bool {
    &&& on_front(ranks, i, a) && on_front(ranks, i, b)
    &&& on_front(ranks, i, first) && on_front(ranks, i, last)
    &&& a != i && b != i && a != b
    &&& !pop[i][m].less(pop[a][m])
    &&& !pop[b][m].less(pop[i][m])
    &&& forall|j: int| #[trigger]
        on_front(ranks, i, j) ==> !(pop[a][m].less(pop[j][m]) && pop[j][m].less(pop[i][m])) && !(
        pop[i][m].less(pop[j][m]) && pop[j][m].less(pop[b][m])) && !pop[j][m].less(
            pop[first][m],
        ) && !pop[last][m].less(pop[j][m])
}

/// Whether the room around a solution grows on an axis by the gap between its nearest neighbors on
/// the front, as a part of what the whole front spans.
pub open spec fn gains_room<R: Reals>(
    reals: &R,
    pop: Seq<Seq<Scalar>>,
    ranks: Seq<usize>,
    i: int,
    m: int,
    before: Scalar,
    after: Scalar,
) -> bool {
    exists|a: int, b: int, first: int, last: int| #[trigger]
        surround(pop, ranks, i, m, a, b, first, last) && reals::is_crowd(
            reals,
            before,
            pop[a][m],
            pop[b][m],
            pop[first][m],
            pop[last][m],
            after,
        )
}

proof fn front_lists(ranks: Seq<usize>, r: usize, n: int, x: int)
    requires
        0 <= n <= ranks.len(),
        0 <= x < nsga2::front_positions(ranks, r, n).len(),
    ensures
        0 <= nsga2::front_positions(ranks, r, n)[x] < n,
        ranks[nsga2::front_positions(ranks, r, n)[x]] == r,
        forall|y: int|
            0 <= y < x ==> #[trigger] nsga2::front_positions(ranks, r, n)[y]
                < nsga2::front_positions(ranks, r, n)[x],
    decreases n,
{
    if n > 0 {
        let rest = nsga2::front_positions(ranks, r, n - 1);
        if x < rest.len() {
            front_lists(ranks, r, n - 1, x);
            assert forall|y: int| 0 <= y < x implies #[trigger] nsga2::front_positions(ranks, r, n)[y]
                < nsga2::front_positions(ranks, r, n)[x] by {
                assert(rest[y] < rest[x]);
            }
        } else {
            assert forall|y: int| 0 <= y < x implies #[trigger] nsga2::front_positions(ranks, r, n)[y]
                < nsga2::front_positions(ranks, r, n)[x] by {
                front_lists(ranks, r, n - 1, y);
            }
        }
    }
}

proof fn front_holds(ranks: Seq<usize>, r: usize, n: int, j: int) -> (x: int)
    requires
        0 <= j < n <= ranks.len(),
        ranks[j] == r,
    ensures
        0 <= x < nsga2::front_positions(ranks, r, n).len(),
        nsga2::front_positions(ranks, r, n)[x] == j,
    decreases n,
{
    if j == n - 1 {
        nsga2::front_positions(ranks, r, n).len() - 1
    } else {
        front_holds(ranks, r, n - 1, j)
    }
}

proof fn axis_gains_room<R: Reals>(
    reals: &R,
    pop: Seq<Seq<Scalar>>,
    ranks: Seq<usize>,
    i: int,
    m: int,
    before: Seq<Scalar>,
    after: Seq<Scalar>,
)
    requires
        ranks.len() == pop.len(),
        0 <= i < pop.len(),
        0 <= m < pop[0].len(),
        all_known(pop),
        nsga2::axis_crowds(
            reals,
            nsga2::front_positions(ranks, ranks[i], pop.len() as int),
            nsga2::keys_of(
                pop,
                nsga2::front_positions(ranks, ranks[i], pop.len() as int),
                m,
            ),
            before,
            after,
        ),
        after[i].bits != crate::scalar::INFINITE,
    ensures
        before[i].bits != crate::scalar::INFINITE,
        gains_room(reals, pop, ranks, i, m, before[i], after[i]),
{
    let front = nsga2::front_positions(ranks, ranks[i], pop.len() as int);
    let keys = nsga2::keys_of(pop, front, m);
    let p = choose|p: Seq<usize>| #[trigger]
        order::is_ranking(keys, Direction::Minimize, p) && forall|q: int|
            0 <= q < p.len() ==> #[trigger] nsga2::place_crowds(
                reals,
                front,
                keys,
                p,
                before,
                after,
                q,
            );
    assert forall|x: int| 0 <= x < front.len() implies 0 <= #[trigger] front[x] < pop.len()
        && ranks[front[x]] == ranks[i] && !keys[x].nan() by {
        front_lists(ranks, ranks[i], pop.len() as int, x);
        assert(!pop[front[x]][m].nan());
    }
    assert(order::all_numbers(keys));
    let x = front_holds(ranks, ranks[i], pop.len() as int, i);
    order::permutation_is_onto(p, keys.len() as int, x);
    let q = choose|q: int| 0 <= q < p.len() && #[trigger] p[q] == x;
    assert(nsga2::place_crowds(reals, front, keys, p, before, after, q));
    let last = p.len() - 1;
    assert(0 < q < last);
    let (a, b) = (front[p[q - 1] as int], front[p[q + 1] as int]);
    let (lo, hi) = (front[p[0] as int], front[p[last] as int]);
    assert(p[q - 1] < front.len() && p[q + 1] < front.len() && p[0] < front.len() && p[last]
        < front.len());
    assert(p[q - 1] != p[q] && p[q] != p[q + 1] && p[q - 1] != p[q + 1]);
    apart(ranks, ranks[i], pop.len() as int, p[q - 1] as int, x);
    apart(ranks, ranks[i], pop.len() as int, p[q + 1] as int, x);
    apart(ranks, ranks[i], pop.len() as int, p[q - 1] as int, p[q + 1] as int);
    order::law_rankings_put_the_better_first(keys, Direction::Minimize, p, q - 1, q);
    order::law_rankings_put_the_better_first(keys, Direction::Minimize, p, q, q + 1);
    assert(surround(pop, ranks, i, m, a, b, lo, hi)) by {
        assert forall|j: int| #[trigger] on_front(ranks, i, j) implies !(pop[a][m].less(pop[j][m])
            && pop[j][m].less(pop[i][m])) && !(pop[i][m].less(pop[j][m]) && pop[j][m].less(
            pop[b][m],
        )) && !pop[j][m].less(pop[lo][m]) && !pop[hi][m].less(pop[j][m]) by {
            let y = front_holds(ranks, ranks[i], pop.len() as int, j);
            order::permutation_is_onto(p, keys.len() as int, y);
            let z = choose|z: int| 0 <= z < p.len() && #[trigger] p[z] == y;
            assert(keys[p[z] as int] == pop[j][m]);
            assert(keys[p[q] as int] == pop[i][m]);
            if z < q - 1 {
                order::law_rankings_put_the_better_first(keys, Direction::Minimize, p, z, q - 1);
            }
            if z < q {
                order::law_rankings_put_the_better_first(keys, Direction::Minimize, p, z, q);
            }
            if z > q {
                order::law_rankings_put_the_better_first(keys, Direction::Minimize, p, q, z);
            }
            if z > q + 1 {
                order::law_rankings_put_the_better_first(keys, Direction::Minimize, p, q + 1, z);
            }
            if z > 0 {
                order::law_rankings_put_the_better_first(keys, Direction::Minimize, p, 0, z);
            }
            if z < last {
                order::law_rankings_put_the_better_first(keys, Direction::Minimize, p, z, last);
            }
        }
    }
}

proof fn apart(ranks: Seq<usize>, r: usize, n: int, x: int, y: int)
    requires
        0 <= n <= ranks.len(),
        0 <= x < nsga2::front_positions(ranks, r, n).len(),
        0 <= y < nsga2::front_positions(ranks, r, n).len(),
        x != y,
    ensures
        nsga2::front_positions(ranks, r, n)[x] != nsga2::front_positions(ranks, r, n)[y],
{
    if x < y {
        front_lists(ranks, r, n, y);
    } else {
        front_lists(ranks, r, n, x);
    }
}

/// Whether the room around a solution adds up from nothing, axis by axis.
pub open spec fn room_adds_up<R: Reals>(
    reals: &R,
    pop: Seq<Seq<Scalar>>,
    ranks: Seq<usize>,
    i: int,
    rooms: Seq<Scalar>,
) -> bool {
    &&& rooms.len() > 0
    &&& rooms[0].pattern() == 0
    &&& forall|m: int|
        0 <= m < rooms.len() - 1 ==> gains_room(
            reals,
            pop,
            ranks,
            i,
            m,
            #[trigger] rooms[m],
            rooms[m + 1],
        )
}

proof fn axes_add_up<R: Reals>(
    reals: &R,
    pop: Seq<Seq<Scalar>>,
    ranks: Seq<usize>,
    i: int,
    n: nat,
    start: Seq<Scalar>,
    dist: Seq<Scalar>,
) -> (rooms: Seq<Scalar>)
    requires
        ranks.len() == pop.len(),
        0 <= i < pop.len(),
        n <= pop[0].len(),
        all_known(pop),
        nsga2::axes_crowd(
            reals,
            pop,
            nsga2::front_positions(ranks, ranks[i], pop.len() as int),
            n,
            start,
            dist,
        ),
        start[i].pattern() == 0,
        dist[i].bits != crate::scalar::INFINITE,
    ensures
        room_adds_up(reals, pop, ranks, i, rooms),
        rooms.len() == n + 1,
        rooms.last() == dist[i],
    decreases n,
{
    let front = nsga2::front_positions(ranks, ranks[i], pop.len() as int);
    if n == 0 {
        seq![dist[i]]
    } else {
        let before = choose|before: Seq<Scalar>|
            nsga2::axes_crowd(reals, pop, front, (n - 1) as nat, start, before) && before.len()
                == dist.len() && #[trigger] nsga2::axis_crowds(
                reals,
                front,
                nsga2::keys_of(pop, front, n - 1),
                before,
                dist,
            );
        axis_gains_room(reals, pop, ranks, i, n - 1, before, dist);
        let rooms = axes_add_up(reals, pop, ranks, i, (n - 1) as nat, start, before);
        let all = rooms.push(dist[i]);
        assert forall|m: int| 0 <= m < all.len() - 1 implies gains_room(
            reals,
            pop,
            ranks,
            i,
            m,
            #[trigger] all[m],
            all[m + 1],
        ) by {
            if m < n - 1 {
                assert(all[m] == rooms[m] && all[m + 1] == rooms[m + 1]);
            }
        }
        all
    }
}

proof fn room_of_its_front<R: Reals>(
    reals: &R,
    pop: Seq<Seq<Scalar>>,
    ranks: Seq<usize>,
    n: nat,
    dist: Seq<Scalar>,
    i: int,
) -> (r: (Seq<Scalar>, Seq<Scalar>))
    requires
        nsga2::fronts_crowd(reals, pop, ranks, n, dist),
        n <= usize::MAX + 1,
        0 <= i < pop.len(),
        ranks.len() == pop.len(),
    ensures
        dist.len() == pop.len(),
        n <= ranks[i] ==> dist[i].pattern() == 0,
        n > ranks[i] ==> nsga2::front_crowds(reals, pop, ranks, ranks[i], r.0, r.1)
            && r.0[i].pattern() == 0 && r.1[i] == dist[i] && r.1.len() == pop.len(),
    decreases n,
{
    if n == 0 {
        (dist, dist)
    } else {
        let before = choose|before: Seq<Scalar>|
            nsga2::fronts_crowd(reals, pop, ranks, (n - 1) as nat, before)
                && #[trigger] nsga2::front_crowds(
                reals,
                pop,
                ranks,
                (n - 1) as usize,
                before,
                dist,
            );
        let r = room_of_its_front(reals, pop, ranks, (n - 1) as nat, before, i);
        if ranks[i] == n - 1 {
            (before, dist)
        } else {
            assert(dist[i] == before[i]);
            r
        }
    }
}

/// The crowding distance of a solution with room on both sides is the sum over all axes of the gap
/// between its nearest neighbors on its own front, each as a part of what the front spans there.
pub proof fn law_crowding_measures_the_gap_between_neighbors<R: Reals>(
    reals: &R,
    pop: Seq<Seq<Scalar>>,
    ranks: Seq<usize>,
    dist: Seq<Scalar>,
    i: int,
)
    requires
        nsga2::is_crowding(reals, pop, ranks, dist),
        ranks.len() == pop.len(),
        0 <= i < pop.len(),
        all_known(pop),
        dist[i].bits != crate::scalar::INFINITE,
    ensures
        exists|rooms: Seq<Scalar>| #[trigger]
            room_adds_up(reals, pop, ranks, i, rooms) && rooms.len() == pop[0].len() + 1
                && rooms.last() == dist[i],
{
    let n = choose|n: nat|
        n <= usize::MAX + 1 && (forall|i: int|
            0 <= i < ranks.len() ==> (#[trigger] ranks[i]) < n) && #[trigger] nsga2::fronts_crowd(
            reals,
            pop,
            ranks,
            n,
            dist,
        );
    assert(ranks[i] < n);
    let (start, done) = room_of_its_front(reals, pop, ranks, n, dist, i);
    let rooms = axes_add_up(reals, pop, ranks, i, pop[0].len(), start, done);
    assert(room_adds_up(reals, pop, ranks, i, rooms));
}

/// Solutions at an end of their front on some axis have infinite room, so they outlast the others.
pub proof fn law_ends_of_a_front_have_infinite_room<R: Reals>(
    reals: &R,
    pop: Seq<Seq<Scalar>>,
    ranks: Seq<usize>,
    dist: Seq<Scalar>,
    i: int,
    m: int,
)
    requires
        nsga2::is_crowding(reals, pop, ranks, dist),
        ranks.len() == pop.len(),
        0 <= i < pop.len(),
        0 <= m < pop[0].len(),
        all_known(pop),
        (forall|j: int| #[trigger] on_front(ranks, i, j) && j != i ==> pop[i][m].less(pop[j][m])) || (
        forall|j: int| #[trigger] on_front(ranks, i, j) && j != i ==> pop[j][m].less(pop[i][m])),
    ensures
        dist[i].bits == crate::scalar::INFINITE,
{
    if dist[i].bits != crate::scalar::INFINITE {
        law_crowding_measures_the_gap_between_neighbors(reals, pop, ranks, dist, i);
        let rooms = choose|rooms: Seq<Scalar>| #[trigger]
            room_adds_up(reals, pop, ranks, i, rooms) && rooms.len() == pop[0].len() + 1
                && rooms.last() == dist[i];
        assert(gains_room(reals, pop, ranks, i, m, rooms[m], rooms[m + 1]));
        let (a, b, first, last) = choose|a: int, b: int, first: int, last: int| #[trigger]
            surround(pop, ranks, i, m, a, b, first, last) && reals::is_crowd(
                reals,
                rooms[m],
                pop[a][m],
                pop[b][m],
                pop[first][m],
                pop[last][m],
                rooms[m + 1],
            );
        assert(on_front(ranks, i, a) && on_front(ranks, i, b));
    }
}

} // verus!
