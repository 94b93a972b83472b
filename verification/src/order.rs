//! Stable ranking of scalars.

use vstd::prelude::*;
use crate::metrics::Direction;
use crate::scalar::Scalar;
#[allow(unused_imports)]
use crate::models;

verus! {

/// A scalar as a loss: lower is better whatever the direction.
pub open spec fn loss(d: Direction, s: Scalar) -> int {
    match d {
        Direction::Minimize => s.key(),
        Direction::Maximize => -s.key(),
    }
}

/// Whether none of the scalars is a NaN.
pub open spec fn all_numbers(keys: Seq<Scalar>) -> bool {
    forall|i: int| 0 <= i < keys.len() ==> !(#[trigger] keys[i]).nan()
}

/// Whether position `a` goes before position `b`: it is better, or as good and earlier.
pub open spec fn goes_before(keys: Seq<Scalar>, d: Direction, a: int, b: int) -> bool {
    loss(d, keys[a]) < loss(d, keys[b]) || (loss(d, keys[a]) == loss(d, keys[b]) && a < b)
}

/// Whether `p` lists each of the positions below `n` once.
pub open spec fn is_permutation(p: Seq<usize>, n: int) -> bool {
    &&& p.len() == n
    &&& forall|i: int| 0 <= i < p.len() ==> (#[trigger] p[i]) < n
    &&& forall|i: int, j: int| 0 <= i < j < p.len() ==> #[trigger] p[i] != #[trigger] p[j]
}

/// Whether `p` lists the positions of `keys` best first, earlier positions first among equals.
pub open spec fn is_ranking(keys: Seq<Scalar>, d: Direction, p: Seq<usize>) -> bool {
    &&& is_permutation(p, keys.len() as int)
    &&& forall|i: int, j: int|
        0 <= i < j < p.len() ==> goes_before(
            keys,
            d,
            #[trigger] p[i] as int,
            #[trigger] p[j] as int,
        )
}

/// A permutation lists every position.
pub proof fn permutation_is_onto(p: Seq<usize>, n: int, x: int)
    requires
        is_permutation(p, n),
        0 <= x < n,
    ensures
        exists|i: int| 0 <= i < p.len() && #[trigger] p[i] == x,
{
    let s = p.map_values(|v: usize| v as int);
    assert(s.no_duplicates()) by {
        assert forall|i: int, j: int|
            0 <= i < s.len() && 0 <= j < s.len() && i != j implies s[i] != s[j] by {
            if i < j {
                assert(p[i] != p[j]);
            } else {
                assert(p[j] != p[i]);
            }
        }
    }
    s.unique_seq_to_set();
    let range = vstd::set_lib::set_int_range(0, n);
    vstd::set_lib::lemma_int_range(0, n);
    assert(s.to_set().subset_of(range)) by {
        assert forall|v: int| s.to_set().contains(v) implies range.contains(v) by {
            let i = choose|i: int| 0 <= i < s.len() && s[i] == v;
            assert(p[i] < n);
        }
    }
    vstd::set_lib::lemma_subset_equality(s.to_set(), range);
    assert(s.to_set().contains(x));
    let i = choose|i: int| 0 <= i < s.len() && s[i] == x;
    assert(p[i] == x);
}

/// Scalars have one ranking only.
pub proof fn law_ranking_is_unique(
    keys: Seq<Scalar>,
    d: Direction,
    p: Seq<usize>,
    q: Seq<usize>,
)
    requires
        is_ranking(keys, d, p),
        is_ranking(keys, d, q),
    ensures
        p == q,
{
    assert forall|i: int| 0 <= i < p.len() implies p[i] == q[i] by {
        ranking_agrees(keys, d, p, q, i);
    }
    assert(p =~= q);
}

proof fn ranking_agrees(
    keys: Seq<Scalar>,
    d: Direction,
    p: Seq<usize>,
    q: Seq<usize>,
    i: int,
)
    requires
        is_ranking(keys, d, p),
        is_ranking(keys, d, q),
        0 <= i < p.len(),
    ensures
        forall|k: int| 0 <= k <= i ==> p[k] == q[k],
    decreases i,
{
    if i > 0 {
        ranking_agrees(keys, d, p, q, i - 1);
    }
    if p[i] != q[i] {
        permutation_is_onto(q, keys.len() as int, p[i] as int);
        permutation_is_onto(p, keys.len() as int, q[i] as int);
        let a = choose|a: int| 0 <= a < q.len() && #[trigger] q[a] == p[i];
        let b = choose|b: int| 0 <= b < p.len() && #[trigger] p[b] == q[i];
        if a < i {
            assert(p[a] == q[a]);
        } else if b < i {
            assert(q[b] == p[b]);
        } else {
            assert(goes_before(keys, d, q[i] as int, q[a] as int));
            assert(goes_before(keys, d, p[i] as int, p[b] as int));
        }
    }
}

/// Whether position `a` goes before position `b`: it is better, or as good and has the lower
/// id, or the same id and is earlier.
pub open spec fn goes_before_by(
    keys: Seq<Scalar>,
    ids: Seq<u64>,
    d: Direction,
    a: int,
    b: int,
) -> bool {
    loss(d, keys[a]) < loss(d, keys[b]) || (loss(d, keys[a]) == loss(d, keys[b]) && (ids[a]
        < ids[b] || (ids[a] == ids[b] && a < b)))
}

/// Whether `p` lists the positions of `keys` best first, lower ids first among equals.
pub open spec fn is_ranking_by(
    keys: Seq<Scalar>,
    ids: Seq<u64>,
    d: Direction,
    p: Seq<usize>,
) -> bool {
    &&& is_permutation(p, keys.len() as int)
    &&& forall|i: int, j: int|
        0 <= i < j < p.len() ==> goes_before_by(
            keys,
            ids,
            d,
            #[trigger] p[i] as int,
            #[trigger] p[j] as int,
        )
}

/// Whether position `a` is sorted in front of position `b`: it is better, or no worse and has the
/// lower id. A NaN is neither better nor worse than anything.
pub open spec fn passes_by(keys: Seq<Scalar>, ids: Seq<u64>, d: Direction, a: int, b: int) -> bool {
    d.better(keys[a], keys[b]) || (!d.better(keys[b], keys[a]) && ids[a] < ids[b])
}

/// Where position `i` ends up in a list of positions when it moves forward from place `at` for as
/// long as it is sorted in front of the one before it.
pub open spec fn place_by(
    keys: Seq<Scalar>,
    ids: Seq<u64>,
    d: Direction,
    list: Seq<usize>,
    i: int,
    at: nat,
) -> nat
    decreases at,
{
    if at > 0 && passes_by(keys, ids, d, i, list[at - 1] as int) {
        place_by(keys, ids, d, list, i, (at - 1) as nat)
    } else {
        at
    }
}

/// The first `n` positions, each moved to its place among those before it.
pub open spec fn sorted_by(keys: Seq<Scalar>, ids: Seq<u64>, d: Direction, n: nat) -> Seq<usize>
    decreases n,
{
    if n == 0 {
        Seq::empty()
    } else {
        let list = sorted_by(keys, ids, d, (n - 1) as nat);
        list.insert(
            place_by(keys, ids, d, list, n - 1, list.len()) as int,
            (n - 1) as usize,
        )
    }
}

/// The positions of `keys` sorted from best to worst, earlier positions first among equals. A NaN
/// stops what is moved past it.
pub open spec fn sorted(keys: Seq<Scalar>, d: Direction) -> Seq<usize> {
    sorted_by(keys, Seq::new(keys.len(), |k: int| k as u64), d, keys.len())
}

/// The positions of `keys` from best to worst, lower ids first among equals: a ranking when no
/// key is a NaN.
pub fn ranking_by(keys: &Vec<Scalar>, ids: &Vec<u64>, direction: Direction) -> (p: Vec<usize>)
    requires
        keys@.len() == ids@.len(),
    ensures
        is_permutation(p@, keys@.len() as int),
        all_numbers(keys@) ==> is_ranking_by(keys@, ids@, direction, p@),
        p@ == sorted_by(keys@, ids@, direction, keys@.len()),
{
    let mut p: Vec<usize> = Vec::new();
    let mut i: usize = 0;
    while i < keys.len()
        invariant
            i <= keys@.len(),
            keys@.len() == ids@.len(),
            is_permutation(p@, i as int),
            p@ == sorted_by(keys@, ids@, direction, i as nat),
            all_numbers(keys@) ==> forall|a: int, b: int|
                0 <= a < b < p@.len() ==> goes_before_by(
                    keys@,
                    ids@,
                    direction,
                    #[trigger] p@[a] as int,
                    #[trigger] p@[b] as int,
                ),
        decreases keys@.len() - i,
    {
        let mut at: usize = p.len();
        while at > 0 && (direction.is_better(keys[i], keys[p[at - 1]]) || (!direction.is_better(
            keys[p[at - 1]],
            keys[i],
        ) && ids[i] < ids[p[at - 1]]))
            invariant
                at <= p@.len(),
                i < keys@.len(),
                keys@.len() == ids@.len(),
                is_permutation(p@, i as int),
                place_by(keys@, ids@, direction, p@, i as int, p@.len()) == place_by(
                    keys@,
                    ids@,
                    direction,
                    p@,
                    i as int,
                    at as nat,
                ),
                all_numbers(keys@) ==> forall|b: int|
                    at <= b < p@.len() ==> goes_before_by(
                        keys@,
                        ids@,
                        direction,
                        i as int,
                        #[trigger] p@[b] as int,
                    ),
            decreases at,
        {
            at -= 1;
        }
        let ghost before = p@;
        p.insert(at, i);
        proof {
            let after = before.insert(at as int, i);
            assert(after == sorted_by(keys@, ids@, direction, (i + 1) as nat));
            assert forall|a: int, b: int| 0 <= a < b < after.len() implies #[trigger] after[a]
                != #[trigger] after[b] by {
                let x = if a < at {
                    a
                } else {
                    a - 1
                };
                let y = if b < at {
                    b
                } else {
                    b - 1
                };
                if a == at {
                    assert(before[y] < i);
                } else if b == at {
                    assert(before[x] < i);
                } else {
                    assert(before[x] != before[y]);
                }
            }
            assert forall|a: int| 0 <= a < after.len() implies (#[trigger] after[a]) < i + 1 by {
                let x = if a < at {
                    a
                } else {
                    a - 1
                };
                if a != at {
                    assert(before[x] < i);
                }
            }
            if all_numbers(keys@) {
                if at > 0 {
                    assert(before[at - 1] < i);
                    assert(goes_before_by(keys@, ids@, direction, before[at - 1] as int, i as int));
                }
                assert forall|a: int, b: int| 0 <= a < b < after.len() implies goes_before_by(
                    keys@,
                    ids@,
                    direction,
                    #[trigger] after[a] as int,
                    #[trigger] after[b] as int,
                ) by {
                    let x = if a < at {
                        a
                    } else {
                        a - 1
                    };
                    let y = if b < at {
                        b
                    } else {
                        b - 1
                    };
                    if a == at {
                        assert(after[b] == before[y]);
                    } else if b == at {
                        assert(after[a] == before[x]);
                        if x < at - 1 {
                            assert(goes_before_by(
                                keys@,
                                ids@,
                                direction,
                                before[x] as int,
                                before[at - 1] as int,
                            ));
                        }
                    } else {
                        assert(after[a] == before[x]);
                        assert(after[b] == before[y]);
                    }
                }
            }
        }
        i += 1;
    }
    p
}

/// The positions of `keys` from best to worst, earlier positions first among equals: a ranking
/// when no key is a NaN.
pub fn ranking(keys: &Vec<Scalar>, direction: Direction) -> (p: Vec<usize>)
    ensures
        is_permutation(p@, keys@.len() as int),
        all_numbers(keys@) ==> is_ranking(keys@, direction, p@),
        p@ == sorted(keys@, direction),
{
    let mut ids: Vec<u64> = Vec::new();
    let mut i: usize = 0;
    while i < keys.len()
        invariant
            i <= keys@.len(),
            ids@.len() == i,
            forall|k: int| 0 <= k < i ==> #[trigger] ids@[k] == k,
        decreases keys@.len() - i,
    {
        ids.push(i as u64);
        i += 1;
    }
    let p = ranking_by(keys, &ids, direction);
    proof {
        assert(ids@ =~= Seq::new(keys@.len(), |k: int| k as u64));
        if all_numbers(keys@) {
            assert forall|a: int, b: int| 0 <= a < b < p@.len() implies goes_before(
                keys@,
                direction,
                #[trigger] p@[a] as int,
                #[trigger] p@[b] as int,
            ) by {
                assert(goes_before_by(keys@, ids@, direction, p@[a] as int, p@[b] as int));
            }
        }
    }
    p
}

/// The items of `keys` in the order of `p`.
pub open spec fn arranged(keys: Seq<Scalar>, p: Seq<usize>) -> Seq<Scalar> {
    Seq::new(p.len(), |i: int| keys[p[i] as int])
}

/// Whether `sorted` holds `keys` in ascending order, equals in their original order.
pub open spec fn is_ascending(keys: Seq<Scalar>, sorted: Seq<Scalar>) -> bool {
    exists|p: Seq<usize>| #[trigger]
        is_ranking(keys, Direction::Minimize, p) && sorted == arranged(keys, p)
}

/// An ascending list is increasing.
pub proof fn ascending_is_increasing(keys: Seq<Scalar>, sorted: Seq<Scalar>)
    requires
        is_ascending(keys, sorted),
    ensures
        sorted.len() == keys.len(),
        forall|i: int, j: int|
            0 <= i < j < sorted.len() ==> (#[trigger] sorted[i]).key() <= (#[trigger] sorted[j]).key(),
{
    let p = choose|p: Seq<usize>| #[trigger]
        is_ranking(keys, Direction::Minimize, p) && sorted == arranged(keys, p);
    assert forall|i: int, j: int| 0 <= i < j < sorted.len() implies (#[trigger] sorted[i]).key()
        <= (#[trigger] sorted[j]).key() by {
        assert(goes_before(keys, Direction::Minimize, p[i] as int, p[j] as int));
    }
}

/// Selects numbers.
pub open spec fn if_number() -> spec_fn(Scalar) -> Option<Scalar> {
    |s: Scalar|
        if s.nan() {
            None
        } else {
            Some(s)
        }
}

/// The numbers among `values`, in order.
pub open spec fn numbers(values: Seq<Scalar>) -> Seq<Scalar> {
    models::pick(values, if_number())
}

/// Only numbers are left.
pub proof fn numbers_are_numbers(values: Seq<Scalar>)
    ensures
        all_numbers(numbers(values)),
{
    assert forall|i: int| 0 <= i < numbers(values).len() implies !(#[trigger] numbers(
        values,
    )[i]).nan() by {
        let k = models::pick_origin(values, if_number(), i);
    }
}

/// The numbers among `values` in ascending order.
pub fn sorted_numbers(values: &Vec<Scalar>) -> (v: Vec<Scalar>)
    ensures
        is_ascending(numbers(values@), v@),
        v@.len() == numbers(values@).len(),
{
    let mut kept: Vec<Scalar> = Vec::new();
    let mut i: usize = 0;
    while i < values.len()
        invariant
            i <= values@.len(),
            kept@ == models::pick(values@.take(i as int), if_number()),
        decreases values@.len() - i,
    {
        proof {
            models::pick_step(values@, i as int, if_number());
        }
        if !values[i].is_nan() {
            kept.push(values[i]);
        }
        i += 1;
    }
    proof {
        models::pick_whole(values@, if_number());
        numbers_are_numbers(values@);
    }
    let p = ranking(&kept, Direction::Minimize);
    let mut out: Vec<Scalar> = Vec::new();
    let mut j: usize = 0;
    while j < p.len()
        invariant
            j <= p@.len(),
            out@.len() == j,
            is_permutation(p@, kept@.len() as int),
            forall|k: int| 0 <= k < j ==> out@[k] == kept@[#[trigger] p@[k] as int],
        decreases p@.len() - j,
    {
        out.push(kept[p[j]]);
        j += 1;
    }
    proof {
        assert(out@ =~= arranged(kept@, p@));
        assert(is_ranking(kept@, Direction::Minimize, p@));
    }
    out
}

/// What stands in the middle of a sorted list.
#[derive(Debug, Clone, Copy, PartialEq, Eq, Structural)]
pub enum Middle {
    /// The list is empty.
    Nothing,
    /// The list has an odd length.
    One(Scalar),
    /// The list has an even length: the median is the average of the two.
    Two(Scalar, Scalar),
}

/// The middle of a sorted list.
pub open spec fn middle(sorted: Seq<Scalar>) -> Middle {
    let mid = sorted.len() as int / 2;
    if sorted.len() == 0 {
        Middle::Nothing
    } else if sorted.len() % 2 == 0 {
        Middle::Two(sorted[mid - 1], sorted[mid])
    } else {
        Middle::One(sorted[mid])
    }
}

/// Whether `m` is the middle of the numbers among `values`.
pub open spec fn is_middle(values: Seq<Scalar>, m: Middle) -> bool {
    exists|sorted: Seq<Scalar>| #[trigger]
        is_ascending(numbers(values), sorted) && m == middle(sorted)
}

/// The middle of the numbers among `values`; NaNs are ignored.
pub fn middle_of(values: &Vec<Scalar>) -> (m: Middle)
    ensures
        is_middle(values@, m),
        m is Nothing <==> numbers(values@).len() == 0,
{
    let v = sorted_numbers(values);
    let n = v.len();
    let mid = n / 2;
    if n == 0 {
        Middle::Nothing
    } else if n % 2 == 0 {
        Middle::Two(v[mid - 1], v[mid])
    } else {
        Middle::One(v[mid])
    }
}

/// Putting items in another order changes nothing about how many of them pass a test.
pub proof fn arranged_as_many(keys: Seq<Scalar>, p: Seq<usize>, test: spec_fn(Scalar) -> bool)
    requires
        is_permutation(p, keys.len() as int),
    ensures
        arranged(keys, p).filter(test).len() == keys.filter(test).len(),
    decreases keys.len(),
{
    reveal(Seq::filter);
    let n = keys.len() as int;
    if n > 0 {
        permutation_is_onto(p, n, n - 1);
        let j = choose|j: int| 0 <= j < p.len() && #[trigger] p[j] == n - 1;
        let (rest, q) = (keys.drop_last(), p.remove(j));
        assert forall|i: int| 0 <= i < q.len() implies (#[trigger] q[i]) < n - 1 by {
            let k = if i < j {
                i
            } else {
                i + 1
            };
            assert(q[i] == p[k]);
            assert(p[k] != p[j]) by {
                if k < j {
                    assert(p[k] != p[j]);
                } else {
                    assert(p[j] != p[k]);
                }
            }
        }
        assert forall|i: int, k: int| 0 <= i < k < q.len() implies #[trigger] q[i]
            != #[trigger] q[k] by {
            let a = if i < j {
                i
            } else {
                i + 1
            };
            let b = if k < j {
                k
            } else {
                k + 1
            };
            assert(p[a] != p[b]);
        }
        arranged_as_many(rest, q, test);
        let all = arranged(keys, p);
        let (head, mid, tail) = (all.take(j), seq![all[j]], all.skip(j + 1));
        assert(all =~= head + mid + tail);
        assert(arranged(rest, q) =~= head + tail);
        Seq::filter_distributes_over_add(head + mid, tail, test);
        Seq::filter_distributes_over_add(head, mid, test);
        Seq::filter_distributes_over_add(head, tail, test);
        assert(mid.drop_last() =~= Seq::<Scalar>::empty());
        assert(Seq::<Scalar>::empty().filter(test).len() == 0);
        assert(mid.last() == keys.last());
        assert(mid.filter(test).len() == if test(keys.last()) {
            1int
        } else {
            0
        });
    }
}

/// In an increasing list, place `i` lies below a cut exactly where more than `i` items do, and
/// above it exactly where as many do as stand from there on.
/// An increasing list has what is below a cut at its start and what is above it at its end.
pub proof fn increasing_lists_split(list: Seq<Scalar>, cut: int, i: int)
    requires
        0 <= i < list.len(),
        forall|a: int, b: int|
            0 <= a < b < list.len() ==> (#[trigger] list[a]).key() <= (#[trigger] list[b]).key(),
    ensures
        list[i].key() < cut <==> list.filter(|s: Scalar| s.key() < cut).len() > i,
        list[i].key() > cut <==> list.filter(|s: Scalar| s.key() > cut).len() >= list.len() - i,
    decreases list.len(),
{
    reveal(Seq::filter);
    let (below, above) = (|s: Scalar| s.key() < cut, |s: Scalar| s.key() > cut);
    let head = list.drop_last();
    let last = list.len() - 1;
    head.lemma_filter_len(below);
    head.lemma_filter_len(above);
    assert forall|a: int, b: int| 0 <= a < b < head.len() implies (#[trigger] head[a]).key() <= (
    #[trigger] head[b]).key() by {
        assert(list[a].key() <= list[b].key());
    }
    if i < last {
        increasing_lists_split(head, cut, i);
        assert(list[i].key() <= list[last].key());
        if list[last].key() <= cut {
            if head.filter(above).len() > 0 {
                head.lemma_filter_pred(above, 0);
                assert(head.contains(head.filter(above)[0])) by {
                    filtered_was_there(head, above, 0);
                }
            }
        }
    } else if head.len() > 0 {
        increasing_lists_split(head, cut, head.len() - 1);
        assert(list[last - 1].key() <= list[last].key());
    }
}

/// What passes a test was there before.
pub proof fn filtered_was_there(list: Seq<Scalar>, test: spec_fn(Scalar) -> bool, i: int)
    requires
        0 <= i < list.filter(test).len(),
    ensures
        list.contains(list.filter(test)[i]),
    decreases list.len(),
{
    reveal(Seq::filter);
    if list.len() > 0 {
        let head = list.drop_last();
        if i < head.filter(test).len() {
            filtered_was_there(head, test, i);
            let k = head.index_of(head.filter(test)[i]);
            assert(list[k] == head.filter(test)[i]);
        } else {
            assert(list[list.len() - 1] == list.filter(test)[i]);
        }
    }
}

/// The middle halves the numbers: with an odd count it lies on a side of any cut exactly where more
/// than half of them do; with an even count the nearer of the two does where at least half do, and
/// the farther one where more than half do.
pub proof fn law_middle_halves_the_numbers(values: Seq<Scalar>, m: Middle, cut: int)
    requires
        is_middle(values, m),
    ensures
        ({
            let n = values.filter(|s: Scalar| !s.nan()).len();
            let below = values.filter(|s: Scalar| !s.nan() && s.key() < cut).len();
            let above = values.filter(|s: Scalar| !s.nan() && s.key() > cut).len();
            match m {
                Middle::Nothing => n == 0,
                Middle::One(x) => n % 2 == 1 && !x.nan() && (x.key() < cut <==> 2 * below > n) && (
                x.key() > cut <==> 2 * above > n),
                Middle::Two(a, b) => n > 0 && n % 2 == 0 && !a.nan() && !b.nan() && (a.key() < cut
                    <==> 2 * below >= n) && (b.key() < cut <==> 2 * below > n) && (b.key() > cut
                    <==> 2 * above >= n) && (a.key() > cut <==> 2 * above > n),
            }
        }),
{
    let nums = numbers(values);
    let list = choose|sorted: Seq<Scalar>| #[trigger] is_ascending(nums, sorted) && m == middle(sorted);
    let p = choose|p: Seq<usize>| #[trigger]
        is_ranking(nums, Direction::Minimize, p) && list == arranged(nums, p);
    let (low, high) = (|s: Scalar| s.key() < cut, |s: Scalar| s.key() > cut);
    numbers_are_numbers(values);
    ascending_is_increasing(nums, list);
    arranged_as_many(nums, p, low);
    arranged_as_many(nums, p, high);
    models::picked_as_many(values, if_number(), |s: Scalar| !s.nan());
    models::picked_then_tested(values, if_number(), low, |s: Scalar| !s.nan() && s.key() < cut);
    models::picked_then_tested(values, if_number(), high, |s: Scalar| !s.nan() && s.key() > cut);
    let n = list.len() as int;
    if n > 0 {
        increasing_lists_split(list, cut, n / 2);
        assert(p[n / 2] < n);
        assert(!nums[p[n / 2] as int].nan());
        if n % 2 == 0 {
            increasing_lists_split(list, cut, n / 2 - 1);
            assert(p[n / 2 - 1] < n);
            assert(!nums[p[n / 2 - 1] as int].nan());
        }
    }
}

/// The order that sorting gives keys is their ranking, where all are numbers.
pub proof fn law_rankings_put_the_better_first(
    keys: Seq<Scalar>,
    d: Direction,
    p: Seq<usize>,
    i: int,
    j: int,
)
    requires
        is_ranking(keys, d, p),
        all_numbers(keys),
        0 <= i < j < p.len(),
    ensures
        !d.better(keys[p[j] as int], keys[p[i] as int]),
        !d.better(keys[p[i] as int], keys[p[j] as int]) ==> p[i] < p[j],
{
    assert(goes_before(keys, d, p[i] as int, p[j] as int));
    assert(p[i] < keys.len() && p[j] < keys.len());
    assert(!keys[p[i] as int].nan() && !keys[p[j] as int].nan());
}

/// In a ranking with ids no key is better than one before it, and of keys that are equally good
/// the lower id comes first.
pub proof fn law_rankings_by_id_put_the_better_first(
    keys: Seq<Scalar>,
    ids: Seq<u64>,
    d: Direction,
    p: Seq<usize>,
    i: int,
    j: int,
)
    requires
        is_ranking_by(keys, ids, d, p),
        all_numbers(keys),
        0 <= i < j < p.len(),
    ensures
        !d.better(keys[p[j] as int], keys[p[i] as int]),
        !d.better(keys[p[i] as int], keys[p[j] as int]) ==> ids[p[i] as int] <= ids[p[j] as int],
{
    assert(goes_before_by(keys, ids, d, p[i] as int, p[j] as int));
    assert(p[i] < keys.len() && p[j] < keys.len());
    assert(!keys[p[i] as int].nan() && !keys[p[j] as int].nan());
}

/// Tells numbers.
pub open spec fn known() -> spec_fn(Scalar) -> bool {
    |s: Scalar| !s.nan()
}

/// Tells numbers below another.
pub open spec fn known_below(x: Scalar) -> spec_fn(Scalar) -> bool {
    |s: Scalar| !s.nan() && s.key() < x.key()
}

/// Tells numbers above another.
pub open spec fn known_above(x: Scalar) -> spec_fn(Scalar) -> bool {
    |s: Scalar| !s.nan() && s.key() > x.key()
}

/// The number at place `i` of an ascending list has that rank among the numbers of the original:
/// at most `i` of them lie below it, and more than `i` lie at it or below.
pub proof fn law_places_are_ranks(values: Seq<Scalar>, sorted: Seq<Scalar>, i: int)
    requires
        is_ascending(numbers(values), sorted),
        0 <= i < sorted.len(),
    ensures
        values.contains(sorted[i]),
        !sorted[i].nan(),
        values.filter(known_below(sorted[i])).len() <= i,
        values.filter(known_above(sorted[i])).len() < sorted.len() - i,
        sorted.len() == values.filter(known()).len(),
{
    let x = sorted[i];
    let nums = numbers(values);
    let p = choose|p: Seq<usize>| #[trigger]
        is_ranking(nums, Direction::Minimize, p) && sorted == arranged(nums, p);
    let cut = x.key();
    let under = |s: Scalar| s.key() < cut;
    let over = |s: Scalar| s.key() > cut;
    ascending_is_increasing(nums, sorted);
    increasing_lists_split(sorted, cut, i);
    arranged_as_many(nums, p, under);
    arranged_as_many(nums, p, over);
    models::picked_then_tested(values, if_number(), under, known_below(x));
    models::picked_then_tested(values, if_number(), over, known_above(x));
    models::picked_as_many(values, if_number(), known());
    numbers_are_numbers(values);
    assert(p[i] < nums.len());
    let k = models::pick_origin(values, if_number(), p[i] as int);
    assert(values[k] == x);
}

} // verus!
