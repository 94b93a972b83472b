//! Arithmetic on feature vectors, as the task adapters ask for it.

use vstd::prelude::*;
use crate::rng::TrialRng;
use crate::scalar::Scalar;
#[allow(unused_imports)]
use crate::order;

verus! {

/// What the task adapters ask of floating-point arithmetic. Nothing is assumed of the answers; a
/// contract names an answer by the question that it was given to, with the functions below.
pub trait Vectors {
    /// The Euclidean distance of two vectors.
    fn distance(&self, a: &Vec<Scalar>, b: &Vec<Scalar>) -> Scalar;

    /// The squared Euclidean distance of two vectors.
    fn distance2(&self, a: &Vec<Scalar>, b: &Vec<Scalar>) -> Scalar;

    /// The sum of numbers, added in order.
    fn total(&self, values: &Vec<Scalar>) -> Scalar;

    /// The mean of numbers, added in order.
    fn mean(&self, values: &Vec<Scalar>) -> Scalar;

    /// The quotient of two counts.
    fn ratio(&self, part: u128, whole: u128) -> Scalar;

    /// The quotient of two counts, in percent.
    fn percent(&self, part: usize, whole: usize) -> Scalar;

    /// The rank of the `q`-quantile among `n` sorted numbers.
    fn rank(&self, q: Scalar, n: usize) -> usize;

    /// How many of `n` rows the share `fraction` holds out.
    fn held_out(&self, fraction: Scalar, n: usize) -> usize;

    /// A number drawn uniformly from zero up to `sum`, and the position behind the draw.
    fn lot(&self, sum: Scalar, rng: TrialRng) -> (Scalar, TrialRng);

    /// The difference of two numbers.
    fn minus(&self, a: Scalar, b: Scalar) -> Scalar;

    /// The silhouette of a point with mean distance `own` to its cluster and `other` to the
    /// nearest other one.
    fn silhouette(&self, own: Scalar, other: Scalar) -> Scalar;

    /// The standard deviation of numbers around their mean, kept away from zero.
    fn deviation(&self, values: &Vec<Scalar>, mean: Scalar) -> Scalar;

    /// The distance from `low` to `high`, kept away from zero.
    fn span(&self, low: Scalar, high: Scalar) -> Scalar;

    /// A number shifted down and divided by a scale.
    fn scaled(&self, x: Scalar, shift: Scalar, scale: Scalar) -> Scalar;
}

/// Whether `r` is an answer to the distance of two vectors.
pub open spec fn is_distance<V: Vectors>(
    vectors: &V,
    a: Vec<Scalar>,
    b: Vec<Scalar>,
    r: Scalar,
) -> bool {
    call_ensures(V::distance, (vectors, &a, &b), r)
}

/// Whether `r` is an answer to the squared distance of two vectors.
pub open spec fn is_distance2<V: Vectors>(
    vectors: &V,
    a: Vec<Scalar>,
    b: Vec<Scalar>,
    r: Scalar,
) -> bool {
    call_ensures(V::distance2, (vectors, &a, &b), r)
}

/// Whether `d` holds answers to the squared distances of a vector to others.
pub open spec fn are_distances2<V: Vectors>(
    vectors: &V,
    a: Vec<Scalar>,
    others: Seq<Vec<Scalar>>,
    d: Seq<Scalar>,
) -> bool {
    &&& d.len() == others.len()
    &&& forall|i: int| 0 <= i < d.len() ==> is_distance2(vectors, a, others[i], #[trigger] d[i])
}

/// Whether `r` is an answer to the sum of numbers.
pub open spec fn is_total<V: Vectors>(vectors: &V, values: Seq<Scalar>, r: Scalar) -> bool {
    exists|v: Vec<Scalar>| v@ == values && #[trigger] call_ensures(V::total, (vectors, &v), r)
}

/// Whether `r` is an answer to the mean of numbers.
pub open spec fn is_mean<V: Vectors>(vectors: &V, values: Seq<Scalar>, r: Scalar) -> bool {
    exists|v: Vec<Scalar>| v@ == values && #[trigger] call_ensures(V::mean, (vectors, &v), r)
}

/// Whether `r` is an answer to the quotient of two counts.
pub open spec fn is_ratio<V: Vectors>(vectors: &V, part: u128, whole: u128, r: Scalar) -> bool {
    call_ensures(V::ratio, (vectors, part, whole), r)
}

/// Whether `r` is an answer to the quotient of two counts, in percent.
pub open spec fn is_percent<V: Vectors>(
    vectors: &V,
    part: usize,
    whole: usize,
    r: Scalar,
) -> bool {
    call_ensures(V::percent, (vectors, part, whole), r)
}

/// Whether `x` is drawn from zero up to `sum` at `rng`, with `after` the position behind it.
pub open spec fn is_lot<V: Vectors>(
    vectors: &V,
    sum: Scalar,
    rng: TrialRng,
    x: Scalar,
    after: TrialRng,
) -> bool {
    call_ensures(V::lot, (vectors, sum, rng), (x, after))
}

/// Whether `r` is an answer to the difference of two numbers.
pub open spec fn is_minus<V: Vectors>(vectors: &V, a: Scalar, b: Scalar, r: Scalar) -> bool {
    call_ensures(V::minus, (vectors, a, b), r)
}

/// Whether `r` is an answer to the rank of a quantile.
pub open spec fn is_rank<V: Vectors>(vectors: &V, q: Scalar, n: usize, r: usize) -> bool {
    call_ensures(V::rank, (vectors, q, n), r)
}

/// Whether `r` is an answer to the deviation of numbers around their mean.
pub open spec fn is_deviation<V: Vectors>(
    vectors: &V,
    values: Seq<Scalar>,
    mean: Scalar,
    r: Scalar,
) -> bool {
    exists|v: Vec<Scalar>|
        v@ == values && #[trigger] call_ensures(V::deviation, (vectors, &v, mean), r)
}

/// Whether `r` is an answer to the distance from `low` to `high`.
pub open spec fn is_span<V: Vectors>(vectors: &V, low: Scalar, high: Scalar, r: Scalar) -> bool {
    call_ensures(V::span, (vectors, low, high), r)
}

/// Whether `r` is an answer to the number of rows to hold out.
pub open spec fn is_held_out<V: Vectors>(
    vectors: &V,
    fraction: Scalar,
    n: usize,
    r: usize,
) -> bool {
    call_ensures(V::held_out, (vectors, fraction, n), r)
}

/// Whether `r` is an answer to a number shifted and scaled.
pub open spec fn is_scaled<V: Vectors>(
    vectors: &V,
    x: Scalar,
    shift: Scalar,
    scale: Scalar,
    r: Scalar,
) -> bool {
    call_ensures(V::scaled, (vectors, x, shift, scale), r)
}

/// Whether `r` is an answer to the silhouette of a point.
pub open spec fn is_silhouette<V: Vectors>(
    vectors: &V,
    own: Scalar,
    other: Scalar,
    r: Scalar,
) -> bool {
    call_ensures(V::silhouette, (vectors, own, other), r)
}

/// The entries in column `j` of the rows listed by `at`.
pub open spec fn column(rows: Seq<Vec<Scalar>>, at: Seq<usize>, j: int) -> Seq<Scalar> {
    Seq::new(at.len(), |k: int| rows[at[k] as int]@[j])
}

/// Whether `center` is the mean of the first `d` numbers of the rows listed by `at`.
pub open spec fn is_center<V: Vectors>(
    vectors: &V,
    rows: Seq<Vec<Scalar>>,
    at: Seq<usize>,
    d: int,
    center: Seq<Scalar>,
) -> bool {
    &&& center.len() == d
    &&& forall|j: int|
        0 <= j < d ==> is_mean(vectors, column(rows, at, j), #[trigger] center[j])
}

/// The mean of the first `d` numbers of the rows listed by `at`.
pub fn center_of<V: Vectors>(
    rows: &Vec<Vec<Scalar>>,
    at: &Vec<usize>,
    d: usize,
    vectors: &V,
) -> (center: Vec<Scalar>)
    requires
        reaching(rows@, d as int),
        forall|k: int| 0 <= k < at@.len() ==> (#[trigger] at@[k]) < rows@.len(),
    ensures
        is_center(vectors, rows@, at@, d as int, center@),
{
    let mut center: Vec<Scalar> = Vec::new();
    let mut j: usize = 0;
    while j < d
        invariant
            j <= d,
            center@.len() == j,
            reaching(rows@, d as int),
            forall|k: int| 0 <= k < at@.len() ==> (#[trigger] at@[k]) < rows@.len(),
            forall|x: int|
                0 <= x < j ==> is_mean(vectors, column(rows@, at@, x), #[trigger] center@[x]),
        decreases d - j,
    {
        let mut values: Vec<Scalar> = Vec::new();
        let mut k: usize = 0;
        while k < at.len()
            invariant
                k <= at@.len(),
                j < d,
                reaching(rows@, d as int),
                forall|k: int| 0 <= k < at@.len() ==> (#[trigger] at@[k]) < rows@.len(),
                values@.len() == k,
                forall|x: int|
                    0 <= x < k ==> #[trigger] values@[x] == column(rows@, at@, j as int)[x],
            decreases at@.len() - k,
        {
            let row = &rows[at[k]];
            proof {
                assert(rows@[at@[k as int] as int]@.len() >= d);
            }
            values.push(row[j]);
            k += 1;
        }
        proof {
            assert(values@ =~= column(rows@, at@, j as int));
        }
        let m = vectors.mean(&values);
        proof {
            assert(is_mean(vectors, column(rows@, at@, j as int), m));
        }
        center.push(m);
        j += 1;
    }
    center
}

/// Whether `x` is the least number among values, infinity when there is none.
pub open spec fn is_least_number(values: Seq<Scalar>, x: Scalar) -> bool {
    &&& !x.nan()
    &&& forall|i: int|
        0 <= i < values.len() && !(#[trigger] values[i]).nan() ==> x.key() <= values[i].key()
    &&& x.key() == crate::scalar::INFINITE || values.contains(x)
}

/// The least number among values, infinity when there is none. NaNs are ignored.
pub fn least_number(values: &Vec<Scalar>) -> (x: Scalar)
    ensures
        is_least_number(values@, x),
{
    let mut least = Scalar::infinity();
    let mut i: usize = 0;
    while i < values.len()
        invariant
            i <= values@.len(),
            !least.nan(),
            forall|k: int|
                0 <= k < i && !(#[trigger] values@[k]).nan() ==> least.key() <= values@[k].key(),
            least.key() == crate::scalar::INFINITE || values@.contains(least),
        decreases values@.len() - i,
    {
        if values[i].lt(&least) {
            least = values[i];
        }
        i += 1;
    }
    least
}

/// Whether `i` is the first of the least numbers.
pub open spec fn is_first_least(values: Seq<Scalar>, i: int) -> bool {
    &&& 0 <= i < values.len()
    &&& forall|j: int| 0 <= j < values.len() ==> values[i].key() <= (#[trigger] values[j]).key()
    &&& forall|j: int| 0 <= j < i ==> values[i].key() < (#[trigger] values[j]).key()
}

/// Where a walk over `values` ends that stays with the first one until it meets a lesser one. A
/// NaN is neither less than another value nor greater.
pub open spec fn least_met(values: Seq<Scalar>) -> int
    decreases values.len(),
{
    if values.len() <= 1 {
        0
    } else {
        let best = least_met(values.drop_last());
        if values.last().less(values[best]) {
            values.len() - 1
        } else {
            best
        }
    }
}

/// A walk over numbers ends at the first of the least ones.
pub proof fn law_least_met_is_first_least(values: Seq<Scalar>)
    requires
        values.len() > 0,
    ensures
        0 <= least_met(values) < values.len(),
        order::all_numbers(values) ==> is_first_least(values, least_met(values)),
    decreases values.len(),
{
    if values.len() > 1 {
        let head = values.drop_last();
        law_least_met_is_first_least(head);
        if order::all_numbers(values) {
            assert forall|i: int| 0 <= i < head.len() implies !(#[trigger] head[i]).nan() by {
                assert(!values[i].nan());
            }
            let (b, at) = (least_met(head), least_met(values));
            assert(!values[b].nan() && !values.last().nan());
            assert forall|j: int| 0 <= j < values.len() implies values[at].key() <= (
            #[trigger] values[j]).key() by {
                if j < head.len() {
                    assert(head[b].key() <= head[j].key());
                }
            }
            assert forall|j: int| 0 <= j < at implies values[at].key() < (
            #[trigger] values[j]).key() by {
                assert(head[b].key() <= head[j].key());
            }
        }
    }
}

/// The position of the first of the least numbers: where a walk ends that stays with the first
/// value until it meets a lesser one.
pub fn first_least(values: &Vec<Scalar>) -> (i: usize)
    requires
        values@.len() > 0,
    ensures
        i < values@.len(),
        i == least_met(values@),
{
    let mut best: usize = 0;
    let mut j: usize = 1;
    while j < values.len()
        invariant
            1 <= j <= values@.len(),
            best < j,
            best == least_met(values@.take(j as int)),
        decreases values@.len() - j,
    {
        proof {
            assert(values@.take(j + 1).drop_last() =~= values@.take(j as int));
        }
        if values[j].lt(&values[best]) {
            best = j;
        }
        j += 1;
    }
    proof {
        assert(values@.take(values@.len() as int) =~= values@);
    }
    best
}

/// Whether every row has `d` numbers.
pub open spec fn rectangular(rows: Seq<Vec<Scalar>>, d: int) -> bool {
    forall|i: int| 0 <= i < rows.len() ==> (#[trigger] rows[i])@.len() == d
}

/// Whether every row has `d` numbers.
pub fn is_rectangular(rows: &Vec<Vec<Scalar>>, d: usize) -> (r: bool)
    ensures
        r == rectangular(rows@, d as int),
{
    let mut i: usize = 0;
    while i < rows.len()
        invariant
            i <= rows@.len(),
            forall|k: int| 0 <= k < i ==> (#[trigger] rows@[k])@.len() == d,
        decreases rows@.len() - i,
    {
        if rows[i].len() != d {
            return false;
        }
        i += 1;
    }
    true
}

/// Whether every row has at least `d` numbers.
pub open spec fn reaching(rows: Seq<Vec<Scalar>>, d: int) -> bool {
    forall|i: int| 0 <= i < rows.len() ==> (#[trigger] rows[i])@.len() >= d
}

/// Whether every row has at least `d` numbers.
pub fn is_reaching(rows: &Vec<Vec<Scalar>>, d: usize) -> (r: bool)
    ensures
        r == reaching(rows@, d as int),
{
    let mut i: usize = 0;
    while i < rows.len()
        invariant
            i <= rows@.len(),
            forall|k: int| 0 <= k < i ==> (#[trigger] rows@[k])@.len() >= d,
        decreases rows@.len() - i,
    {
        if rows[i].len() < d {
            return false;
        }
        i += 1;
    }
    true
}

/// Whether place `c` is that of a nearest vector: its squared distance is among answers to the
/// distances of all, and where these are numbers none is less.
pub open spec fn is_no_farther<V: Vectors>(
    vectors: &V,
    a: Vec<Scalar>,
    others: Seq<Vec<Scalar>>,
    c: int,
) -> bool {
    exists|d: Seq<Scalar>| #[trigger]
        are_distances2(vectors, a, others, d) && 0 <= c < d.len() && (order::all_numbers(d)
            ==> forall|j: int| 0 <= j < d.len() ==> !(#[trigger] d[j]).less(d[c]))
}

/// An answer about vectors or counts is one to the question as it was put, in the order that it was
/// put in.
pub proof fn law_answers_are_to_their_questions<V: Vectors>(
    vectors: &V,
    a: Vec<Scalar>,
    b: Vec<Scalar>,
    x: Scalar,
    y: Scalar,
    z: Scalar,
    part: u128,
    whole: u128,
    m: usize,
    n: usize,
    rng: TrialRng,
    after: TrialRng,
    r: Scalar,
    u: usize,
)
    ensures
        is_distance(vectors, a, b, r) <==> call_ensures(V::distance, (vectors, &a, &b), r),
        is_distance2(vectors, a, b, r) <==> call_ensures(V::distance2, (vectors, &a, &b), r),
        is_ratio(vectors, part, whole, r) <==> call_ensures(V::ratio, (vectors, part, whole), r),
        is_percent(vectors, m, n, r) <==> call_ensures(V::percent, (vectors, m, n), r),
        is_rank(vectors, x, n, u) <==> call_ensures(V::rank, (vectors, x, n), u),
        is_held_out(vectors, x, n, u) <==> call_ensures(V::held_out, (vectors, x, n), u),
        is_lot(vectors, x, rng, r, after) <==> call_ensures(V::lot, (vectors, x, rng), (r, after)),
        is_minus(vectors, x, y, r) <==> call_ensures(V::minus, (vectors, x, y), r),
        is_silhouette(vectors, x, y, r) <==> call_ensures(V::silhouette, (vectors, x, y), r),
        is_span(vectors, x, y, r) <==> call_ensures(V::span, (vectors, x, y), r),
        is_scaled(vectors, x, y, z, r) <==> call_ensures(V::scaled, (vectors, x, y, z), r),
        is_mean(vectors, a@, r) <==> exists|v: Vec<Scalar>|
            v@ == a@ && #[trigger] call_ensures(V::mean, (vectors, &v), r),
        is_total(vectors, a@, r) <==> exists|v: Vec<Scalar>|
            v@ == a@ && #[trigger] call_ensures(V::total, (vectors, &v), r),
{
}

} // verus!
