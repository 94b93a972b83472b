//! Floating-point arithmetic, as the engine asks for it.

use vstd::prelude::*;
use crate::rng::TrialRng;
use crate::scalar::Scalar;

verus! {

/// What the engine asks of floating-point arithmetic. Nothing is assumed of the answers:
/// whatever comes back, the engine keeps its own rules. A contract names an answer by the
/// question that it was given to, with the functions below.
pub trait Reals {
    /// The natural logarithm of a number.
    fn ln(&self, x: Scalar) -> Scalar;

    /// The exponential of a number.
    fn exp(&self, x: Scalar) -> Scalar;

    /// The difference of two numbers.
    fn difference(&self, a: Scalar, b: Scalar) -> Scalar;

    /// The share `part / whole`.
    fn ratio(&self, part: usize, whole: usize) -> Scalar;

    /// The number that lies `t` of the way from `low` to `high`.
    fn mix(&self, low: Scalar, high: Scalar, t: Scalar) -> Scalar;

    /// The number that lies `t` of the way from `low` to one above `high`.
    fn stretch(&self, low: i64, high: i64, t: Scalar) -> Scalar;

    /// How many `n`-th parts lie wholly below `t`.
    fn parts(&self, t: Scalar, n: usize) -> usize;

    /// The greatest whole number at or below `x`.
    fn floor(&self, x: Scalar) -> Scalar;

    /// The whole number nearest to `x`.
    fn round(&self, x: Scalar) -> i64;

    /// The number nearest to `x` that is whole steps of `step` away from `low`.
    fn snap(&self, x: Scalar, low: Scalar, step: Scalar) -> Scalar;

    /// The last number at whole steps of `step` from `low` that does not lie above `high`.
    fn last_step(&self, low: Scalar, high: Scalar, step: Scalar) -> Scalar;

    /// The number of steps of `step` that lead from `low` nearest to `x`.
    fn steps(&self, x: Scalar, low: i64, step: i64) -> i64;

    /// A number drawn uniformly from `[low, high]`, and the position behind the draw.
    fn uniform(&self, low: Scalar, high: Scalar, rng: TrialRng) -> (Scalar, TrialRng);

    /// A number drawn from the Gaussian around `mean` with the given deviation, and the position
    /// behind the draw.
    fn normal(&self, mean: Scalar, deviation: Scalar, rng: TrialRng) -> (Scalar, TrialRng);

    /// `x` moved by a Gaussian step of `scale` times the way from `low` to `high`, and the
    /// position behind the draw.
    fn nudge(
        &self,
        x: Scalar,
        scale: Scalar,
        low: Scalar,
        high: Scalar,
        rng: TrialRng,
    ) -> (Scalar, TrialRng);

    /// Lays out a float range as grid points: every `step` from `low` up to `high`.
    fn grid_steps(&self, low: Scalar, high: Scalar, step: Scalar) -> Vec<Scalar>;

    /// The average of two numbers.
    fn midpoint(&self, a: Scalar, b: Scalar) -> Scalar;

    /// Adds to a crowding distance the gap between two neighbors, as a share of the span.
    fn crowd(
        &self,
        distance: Scalar,
        below: Scalar,
        above: Scalar,
        lowest: Scalar,
        highest: Scalar,
    ) -> Scalar;

    /// The share `gamma` of `n`, rounded up.
    fn share(&self, gamma: Scalar, n: usize) -> usize;

    /// For each choice, the logarithm of the ratio of its frequency among the good counts to
    /// that among the bad counts.
    fn log_ratios(&self, good: &Vec<u128>, bad: &Vec<u128>) -> Vec<Scalar>;

    /// The logarithm of the density at `x` of a Gaussian that is one of `n` with equal weights.
    fn log_density(&self, x: Scalar, mean: Scalar, deviation: Scalar, n: usize) -> Scalar;

    /// The logarithm of the sum of the exponentials of terms, the greatest of which is given.
    fn log_sum(&self, terms: &Vec<Scalar>, greatest: Scalar) -> Scalar;

    /// The fraction with the given digits in `base` behind the point, first digit first.
    fn fraction(&self, digits: &Vec<u64>, base: u64) -> Scalar;

    /// The number that is an integer, or the nearest to it.
    fn of_int(&self, x: i64) -> Scalar;

    /// The sum of numbers.
    fn sum(&self, values: &Vec<Scalar>) -> Scalar;

    /// The quotient of two numbers.
    fn quotient(&self, a: Scalar, b: Scalar) -> Scalar;

    /// The arithmetic mean of numbers.
    fn mean(&self, values: &Vec<Scalar>) -> Scalar;

    /// The population variance of numbers.
    fn variance(&self, values: &Vec<Scalar>) -> Scalar;

    /// The variance of the means of groups, weighted by their sizes, around the grand mean.
    fn between(&self, groups: &Vec<Vec<Scalar>>) -> Scalar;

    /// The share `fraction` of `n`, rounded down.
    fn tail(&self, fraction: Scalar, n: usize) -> usize;

    /// The standard error of the mean of numbers.
    fn mean_error(&self, values: &Vec<Scalar>) -> Scalar;

    /// The distances of numbers from `center`.
    fn distances(&self, values: &Vec<Scalar>, center: Scalar) -> Vec<Scalar>;

    /// A median absolute deviation over `n` numbers, scaled to a standard error.
    fn deviation_error(&self, deviation: Scalar, n: usize) -> Scalar;
}

/// Whether `r` is an answer to the logarithm of `x`.
pub open spec fn is_ln<R: Reals>(reals: &R, x: Scalar, r: Scalar) -> bool {
    call_ensures(R::ln, (reals, x), r)
}

/// Whether `r` is an answer to the exponential of `x`.
pub open spec fn is_exp<R: Reals>(reals: &R, x: Scalar, r: Scalar) -> bool {
    call_ensures(R::exp, (reals, x), r)
}

/// Whether `r` is an answer to the share `part / whole`.
pub open spec fn is_ratio<R: Reals>(reals: &R, part: usize, whole: usize, r: Scalar) -> bool {
    call_ensures(R::ratio, (reals, part, whole), r)
}

/// Whether `r` is an answer to the number `t` of the way from `low` to `high`.
pub open spec fn is_mix<R: Reals>(
    reals: &R,
    low: Scalar,
    high: Scalar,
    t: Scalar,
    r: Scalar,
) -> bool {
    call_ensures(R::mix, (reals, low, high, t), r)
}

/// Whether `r` is an answer to the number `t` of the way from `low` to one above `high`.
pub open spec fn is_stretch<R: Reals>(
    reals: &R,
    low: i64,
    high: i64,
    t: Scalar,
    r: Scalar,
) -> bool {
    call_ensures(R::stretch, (reals, low, high, t), r)
}

/// Whether `r` is an answer to the number of `n`-th parts below `t`.
pub open spec fn is_parts<R: Reals>(reals: &R, t: Scalar, n: usize, r: usize) -> bool {
    call_ensures(R::parts, (reals, t, n), r)
}

/// Whether `r` is an answer to the greatest whole number at or below `x`.
pub open spec fn is_floor<R: Reals>(reals: &R, x: Scalar, r: Scalar) -> bool {
    call_ensures(R::floor, (reals, x), r)
}

/// Whether `r` is an answer to the whole number nearest to `x`.
pub open spec fn is_round<R: Reals>(reals: &R, x: Scalar, r: i64) -> bool {
    call_ensures(R::round, (reals, x), r)
}

/// Whether `x` is drawn uniformly from `[low, high]` at `rng`, with `after` the position behind
/// it.
pub open spec fn is_uniform<R: Reals>(
    reals: &R,
    low: Scalar,
    high: Scalar,
    rng: TrialRng,
    x: Scalar,
    after: TrialRng,
) -> bool {
    call_ensures(R::uniform, (reals, low, high, rng), (x, after))
}

/// Whether `x` is drawn from a Gaussian at `rng`, with `after` the position behind it.
pub open spec fn is_normal<R: Reals>(
    reals: &R,
    mean: Scalar,
    deviation: Scalar,
    rng: TrialRng,
    x: Scalar,
    after: TrialRng,
) -> bool {
    call_ensures(R::normal, (reals, mean, deviation, rng), (x, after))
}

/// Whether `r` is `x` moved by a Gaussian step at `rng`, with `after` the position behind it.
pub open spec fn is_nudge<R: Reals>(
    reals: &R,
    x: Scalar,
    scale: Scalar,
    low: Scalar,
    high: Scalar,
    rng: TrialRng,
    r: Scalar,
    after: TrialRng,
) -> bool {
    call_ensures(R::nudge, (reals, x, scale, low, high, rng), (r, after))
}

/// Whether `r` is an answer to a crowding distance with a gap added.
pub open spec fn is_crowd<R: Reals>(
    reals: &R,
    distance: Scalar,
    below: Scalar,
    above: Scalar,
    lowest: Scalar,
    highest: Scalar,
    r: Scalar,
) -> bool {
    call_ensures(R::crowd, (reals, distance, below, above, lowest, highest), r)
}

/// Whether `r` is an answer to the share `gamma` of `n`, rounded up.
pub open spec fn is_share<R: Reals>(reals: &R, gamma: Scalar, n: usize, r: usize) -> bool {
    call_ensures(R::share, (reals, gamma, n), r)
}

/// Whether `r` is an answer to the logarithms of the ratios of frequencies.
pub open spec fn are_log_ratios<R: Reals>(
    reals: &R,
    good: Seq<u128>,
    bad: Seq<u128>,
    r: Seq<Scalar>,
) -> bool {
    exists|g: Vec<u128>, b: Vec<u128>, v: Vec<Scalar>|
        g@ == good && b@ == bad && v@ == r && #[trigger] call_ensures(
            R::log_ratios,
            (reals, &g, &b),
            v,
        )
}

/// Whether `r` is an answer to the grid points of a float range.
pub open spec fn are_grid_steps<R: Reals>(
    reals: &R,
    low: Scalar,
    high: Scalar,
    step: Scalar,
    r: Seq<Scalar>,
) -> bool {
    exists|v: Vec<Scalar>|
        v@ == r && #[trigger] call_ensures(R::grid_steps, (reals, low, high, step), v)
}

/// Whether `r` is an answer to the fraction with the given digits.
pub open spec fn is_fraction<R: Reals>(
    reals: &R,
    digits: Seq<u64>,
    base: u64,
    r: Scalar,
) -> bool {
    exists|v: Vec<u64>|
        v@ == digits && #[trigger] call_ensures(R::fraction, (reals, &v, base), r)
}

/// Whether `r` is an answer to the number nearest to `x` at whole steps from `low`.
pub open spec fn is_snap<R: Reals>(
    reals: &R,
    x: Scalar,
    low: Scalar,
    step: Scalar,
    r: Scalar,
) -> bool {
    call_ensures(R::snap, (reals, x, low, step), r)
}

/// Whether `r` is an answer to the last number at whole steps from `low` up to `high`.
pub open spec fn is_last_step<R: Reals>(
    reals: &R,
    low: Scalar,
    high: Scalar,
    step: Scalar,
    r: Scalar,
) -> bool {
    call_ensures(R::last_step, (reals, low, high, step), r)
}

/// Whether `r` is an answer to the number of steps from `low` nearest to `x`.
pub open spec fn is_steps<R: Reals>(reals: &R, x: Scalar, low: i64, step: i64, r: i64) -> bool {
    call_ensures(R::steps, (reals, x, low, step), r)
}

/// Whether `r` is an answer to the number that is an integer.
pub open spec fn is_of_int<R: Reals>(reals: &R, x: i64, r: Scalar) -> bool {
    call_ensures(R::of_int, (reals, x), r)
}

/// Whether `r` is an answer to the difference of two numbers.
pub open spec fn is_difference<R: Reals>(reals: &R, a: Scalar, b: Scalar, r: Scalar) -> bool {
    call_ensures(R::difference, (reals, a, b), r)
}

/// Whether `r` is an answer to the average of two numbers.
pub open spec fn is_midpoint<R: Reals>(reals: &R, a: Scalar, b: Scalar, r: Scalar) -> bool {
    call_ensures(R::midpoint, (reals, a, b), r)
}

/// Whether `r` is an answer to the quotient of two numbers.
pub open spec fn is_quotient<R: Reals>(reals: &R, a: Scalar, b: Scalar, r: Scalar) -> bool {
    call_ensures(R::quotient, (reals, a, b), r)
}

/// Whether `r` is an answer to the logarithm of a density.
pub open spec fn is_log_density<R: Reals>(
    reals: &R,
    x: Scalar,
    mean: Scalar,
    deviation: Scalar,
    n: usize,
    r: Scalar,
) -> bool {
    call_ensures(R::log_density, (reals, x, mean, deviation, n), r)
}

/// Whether `r` is an answer to the logarithm of a sum of exponentials.
pub open spec fn is_log_sum<R: Reals>(
    reals: &R,
    terms: Seq<Scalar>,
    greatest: Scalar,
    r: Scalar,
) -> bool {
    exists|v: Vec<Scalar>|
        v@ == terms && #[trigger] call_ensures(R::log_sum, (reals, &v, greatest), r)
}

/// Whether `r` is an answer to the sum of numbers.
pub open spec fn is_sum<R: Reals>(reals: &R, values: Seq<Scalar>, r: Scalar) -> bool {
    exists|v: Vec<Scalar>| v@ == values && #[trigger] call_ensures(R::sum, (reals, &v), r)
}

/// Whether `r` is an answer to the arithmetic mean of numbers.
pub open spec fn is_mean<R: Reals>(reals: &R, values: Seq<Scalar>, r: Scalar) -> bool {
    exists|v: Vec<Scalar>| v@ == values && #[trigger] call_ensures(R::mean, (reals, &v), r)
}

/// Whether `r` is an answer to the share `fraction` of `n`.
pub open spec fn is_tail<R: Reals>(reals: &R, fraction: Scalar, n: usize, r: usize) -> bool {
    call_ensures(R::tail, (reals, fraction, n), r)
}

/// Whether `r` is an answer to the variance of numbers.
pub open spec fn is_variance<R: Reals>(reals: &R, values: Seq<Scalar>, r: Scalar) -> bool {
    exists|v: Vec<Scalar>| v@ == values && #[trigger] call_ensures(R::variance, (reals, &v), r)
}

/// Whether `r` is an answer to the variance between groups.
pub open spec fn is_between<R: Reals>(reals: &R, groups: Seq<Seq<Scalar>>, r: Scalar) -> bool {
    exists|v: Vec<Vec<Scalar>>|
        v@.map_values(|g: Vec<Scalar>| g@) == groups && #[trigger] call_ensures(
            R::between,
            (reals, &v),
            r,
        )
}

/// Whether `r` is an answer to the standard error of the mean of numbers.
pub open spec fn is_mean_error<R: Reals>(reals: &R, values: Seq<Scalar>, r: Scalar) -> bool {
    exists|v: Vec<Scalar>| v@ == values && #[trigger] call_ensures(R::mean_error, (reals, &v), r)
}

/// Whether `r` is an answer to the distances of numbers from `center`.
pub open spec fn are_distances<R: Reals>(
    reals: &R,
    values: Seq<Scalar>,
    center: Scalar,
    r: Seq<Scalar>,
) -> bool {
    exists|v: Vec<Scalar>, d: Vec<Scalar>|
        v@ == values && d@ == r && #[trigger] call_ensures(
            R::distances,
            (reals, &v, center),
            d,
        )
}

/// Whether `r` is an answer to the error that a deviation over `n` numbers stands for.
pub open spec fn is_deviation_error<R: Reals>(
    reals: &R,
    deviation: Scalar,
    n: usize,
    r: Scalar,
) -> bool {
    call_ensures(R::deviation_error, (reals, deviation, n), r)
}

/// Whether arithmetic answers the same question alike whenever it is asked.
pub open spec fn is_steady<R: Reals>(reals: &R) -> bool {
    &&& forall|x: Scalar, a: Scalar, b: Scalar| #[trigger]
        is_ln(reals, x, a) && #[trigger] is_ln(reals, x, b) ==> a == b
    &&& forall|x: Scalar, a: Scalar, b: Scalar| #[trigger]
        is_exp(reals, x, a) && #[trigger] is_exp(reals, x, b) ==> a == b
    &&& forall|p: Scalar, q: Scalar, a: Scalar, b: Scalar| #[trigger]
        is_difference(reals, p, q, a) && #[trigger] is_difference(reals, p, q, b) ==> a == b
    &&& forall|m: usize, n: usize, a: Scalar, b: Scalar| #[trigger]
        is_ratio(reals, m, n, a) && #[trigger] is_ratio(reals, m, n, b) ==> a == b
    &&& forall|p: Scalar, q: Scalar, t: Scalar, a: Scalar, b: Scalar| #[trigger]
        is_mix(reals, p, q, t, a) && #[trigger] is_mix(reals, p, q, t, b) ==> a == b
    &&& forall|m: i64, n: i64, t: Scalar, a: Scalar, b: Scalar| #[trigger]
        is_stretch(reals, m, n, t, a) && #[trigger] is_stretch(reals, m, n, t, b) ==> a == b
    &&& forall|t: Scalar, n: usize, a: usize, b: usize| #[trigger]
        is_parts(reals, t, n, a) && #[trigger] is_parts(reals, t, n, b) ==> a == b
    &&& forall|x: Scalar, a: Scalar, b: Scalar| #[trigger]
        is_floor(reals, x, a) && #[trigger] is_floor(reals, x, b) ==> a == b
    &&& forall|x: Scalar, a: i64, b: i64| #[trigger]
        is_round(reals, x, a) && #[trigger] is_round(reals, x, b) ==> a == b
    &&& forall|x: Scalar, p: Scalar, q: Scalar, a: Scalar, b: Scalar| #[trigger]
        is_snap(reals, x, p, q, a) && #[trigger] is_snap(reals, x, p, q, b) ==> a == b
    &&& forall|x: Scalar, p: Scalar, q: Scalar, a: Scalar, b: Scalar| #[trigger]
        is_last_step(reals, x, p, q, a) && #[trigger] is_last_step(reals, x, p, q, b) ==> a == b
    &&& forall|x: Scalar, m: i64, n: i64, a: i64, b: i64| #[trigger]
        is_steps(reals, x, m, n, a) && #[trigger] is_steps(reals, x, m, n, b) ==> a == b
    &&& forall|m: i64, a: Scalar, b: Scalar| #[trigger]
        is_of_int(reals, m, a) && #[trigger] is_of_int(reals, m, b) ==> a == b
    &&& forall|p: Scalar, q: Scalar, a: Scalar, b: Scalar| #[trigger]
        is_midpoint(reals, p, q, a) && #[trigger] is_midpoint(reals, p, q, b) ==> a == b
    &&& forall|p: Scalar, q: Scalar, a: Scalar, b: Scalar| #[trigger]
        is_quotient(reals, p, q, a) && #[trigger] is_quotient(reals, p, q, b) ==> a == b
    &&& forall|p: Scalar, n: usize, a: usize, b: usize| #[trigger]
        is_share(reals, p, n, a) && #[trigger] is_share(reals, p, n, b) ==> a == b
    &&& forall|x: Scalar, p: Scalar, q: Scalar, n: usize, a: Scalar, b: Scalar| #[trigger]
        is_log_density(reals, x, p, q, n, a)
            && #[trigger] is_log_density(reals, x, p, q, n, b)
            ==> a == b
    &&& forall|
        x: Scalar,
        p: Scalar,
        q: Scalar,
        t: Scalar,
        u: Scalar,
        a: Scalar,
        b: Scalar,
    | #[trigger]
        is_crowd(reals, x, p, q, t, u, a) && #[trigger] is_crowd(reals, x, p, q, t, u, b) ==> a == b
    &&& forall|v: Seq<Scalar>, a: Scalar, b: Scalar| #[trigger]
        is_sum(reals, v, a) && #[trigger] is_sum(reals, v, b) ==> a == b
    &&& forall|v: Seq<Scalar>, a: Scalar, b: Scalar| #[trigger]
        is_mean(reals, v, a) && #[trigger] is_mean(reals, v, b) ==> a == b
    &&& forall|v: Seq<Scalar>, x: Scalar, a: Scalar, b: Scalar| #[trigger]
        is_log_sum(reals, v, x, a) && #[trigger] is_log_sum(reals, v, x, b) ==> a == b
    &&& forall|d: Seq<u64>, n: u64, a: Scalar, b: Scalar| #[trigger]
        is_fraction(reals, d, n, a) && #[trigger] is_fraction(reals, d, n, b) ==> a == b
    &&& forall|g: Seq<u128>, h: Seq<u128>, a: Seq<Scalar>, b: Seq<Scalar>| #[trigger]
        are_log_ratios(reals, g, h, a) && #[trigger] are_log_ratios(reals, g, h, b) ==> a == b
    &&& forall|x: Scalar, p: Scalar, q: Scalar, a: Seq<Scalar>, b: Seq<Scalar>| #[trigger]
        are_grid_steps(reals, x, p, q, a) && #[trigger] are_grid_steps(reals, x, p, q, b) ==> a == b
    &&& forall|
        p: Scalar,
        q: Scalar,
        rng: TrialRng,
        a: Scalar,
        r: TrialRng,
        b: Scalar,
        s: TrialRng,
    | #[trigger]
        is_uniform(reals, p, q, rng, a, r)
            && #[trigger] is_uniform(reals, p, q, rng, b, s)
            ==> a == b && r == s
    &&& forall|
        p: Scalar,
        q: Scalar,
        rng: TrialRng,
        a: Scalar,
        r: TrialRng,
        b: Scalar,
        s: TrialRng,
    | #[trigger]
        is_normal(reals, p, q, rng, a, r)
            && #[trigger] is_normal(reals, p, q, rng, b, s)
            ==> a == b && r == s
    &&& forall|
        x: Scalar,
        p: Scalar,
        q: Scalar,
        t: Scalar,
        rng: TrialRng,
        a: Scalar,
        r: TrialRng,
        b: Scalar,
        s: TrialRng,
    | #[trigger]
        is_nudge(reals, x, p, q, t, rng, a, r)
            && #[trigger] is_nudge(reals, x, p, q, t, rng, b, s)
            ==> a == b && r == s
}

/// An answer about numbers is one to the question as it was put: to these numbers, in this order.
pub proof fn law_answers_are_to_their_questions<R: Reals>(
    reals: &R,
    a: Scalar,
    b: Scalar,
    c: Scalar,
    m: i64,
    k: i64,
    n: usize,
    w: usize,
    r: Scalar,
    i: i64,
    u: usize,
)
    ensures
        is_ln(reals, a, r) <==> call_ensures(R::ln, (reals, a), r),
        is_exp(reals, a, r) <==> call_ensures(R::exp, (reals, a), r),
        is_difference(reals, a, b, r) <==> call_ensures(R::difference, (reals, a, b), r),
        is_quotient(reals, a, b, r) <==> call_ensures(R::quotient, (reals, a, b), r),
        is_midpoint(reals, a, b, r) <==> call_ensures(R::midpoint, (reals, a, b), r),
        is_mix(reals, a, b, c, r) <==> call_ensures(R::mix, (reals, a, b, c), r),
        is_snap(reals, a, b, c, r) <==> call_ensures(R::snap, (reals, a, b, c), r),
        is_last_step(reals, a, b, c, r) <==> call_ensures(R::last_step, (reals, a, b, c), r),
        is_floor(reals, a, r) <==> call_ensures(R::floor, (reals, a), r),
        is_round(reals, a, i) <==> call_ensures(R::round, (reals, a), i),
        is_steps(reals, a, m, k, i) <==> call_ensures(R::steps, (reals, a, m, k), i),
        is_of_int(reals, m, r) <==> call_ensures(R::of_int, (reals, m), r),
        is_stretch(reals, m, k, c, r) <==> call_ensures(R::stretch, (reals, m, k, c), r),
        is_ratio(reals, n, w, r) <==> call_ensures(R::ratio, (reals, n, w), r),
        is_parts(reals, a, n, u) <==> call_ensures(R::parts, (reals, a, n), u),
        is_share(reals, a, n, u) <==> call_ensures(R::share, (reals, a, n), u),
        is_tail(reals, a, n, u) <==> call_ensures(R::tail, (reals, a, n), u),
        is_log_density(reals, a, b, c, n, r) <==> call_ensures(
            R::log_density,
            (reals, a, b, c, n),
            r,
        ),
        is_deviation_error(reals, a, n, r) <==> call_ensures(
            R::deviation_error,
            (reals, a, n),
            r,
        ),
{
}

/// A draw is one from the range, or around the number, that it was asked for, at the position that
/// it was asked at; and room is measured between the neighbors and the ends that were named.
pub proof fn law_draws_are_from_where_they_are_asked_for<R: Reals>(
    reals: &R,
    a: Scalar,
    b: Scalar,
    c: Scalar,
    d: Scalar,
    e: Scalar,
    rng: TrialRng,
    x: Scalar,
    after: TrialRng,
)
    ensures
        is_uniform(reals, a, b, rng, x, after) <==> call_ensures(
            R::uniform,
            (reals, a, b, rng),
            (x, after),
        ),
        is_normal(reals, a, b, rng, x, after) <==> call_ensures(
            R::normal,
            (reals, a, b, rng),
            (x, after),
        ),
        is_nudge(reals, a, b, c, d, rng, x, after) <==> call_ensures(
            R::nudge,
            (reals, a, b, c, d, rng),
            (x, after),
        ),
        is_crowd(reals, a, b, c, d, e, x) <==> call_ensures(
            R::crowd,
            (reals, a, b, c, d, e),
            x,
        ),
{
}

/// An answer about a list is one to all of it, in its order, and to nothing else.
pub proof fn law_answers_are_to_the_whole_list<R: Reals>(
    reals: &R,
    values: Vec<Scalar>,
    center: Scalar,
    distances: Vec<Scalar>,
    digits: Vec<u64>,
    base: u64,
    good: Vec<u128>,
    bad: Vec<u128>,
    r: Scalar,
)
    ensures
        call_ensures(R::sum, (reals, &values), r) ==> is_sum(reals, values@, r),
        call_ensures(R::mean, (reals, &values), r) ==> is_mean(reals, values@, r),
        call_ensures(R::variance, (reals, &values), r) ==> is_variance(reals, values@, r),
        call_ensures(R::mean_error, (reals, &values), r) ==> is_mean_error(reals, values@, r),
        call_ensures(R::log_sum, (reals, &values, center), r) ==> is_log_sum(
            reals,
            values@,
            center,
            r,
        ),
        call_ensures(R::distances, (reals, &values, center), distances) ==> are_distances(
            reals,
            values@,
            center,
            distances@,
        ),
        call_ensures(R::fraction, (reals, &digits, base), r) ==> is_fraction(
            reals,
            digits@,
            base,
            r,
        ),
        call_ensures(R::log_ratios, (reals, &good, &bad), distances) ==> are_log_ratios(
            reals,
            good@,
            bad@,
            distances@,
        ),
        is_sum(reals, values@, r) ==> exists|v: Vec<Scalar>|
            v@ == values@ && #[trigger] call_ensures(R::sum, (reals, &v), r),
        is_mean(reals, values@, r) ==> exists|v: Vec<Scalar>|
            v@ == values@ && #[trigger] call_ensures(R::mean, (reals, &v), r),
        is_variance(reals, values@, r) ==> exists|v: Vec<Scalar>|
            v@ == values@ && #[trigger] call_ensures(R::variance, (reals, &v), r),
        are_log_ratios(reals, good@, bad@, distances@) ==> exists|
            g: Vec<u128>,
            b: Vec<u128>,
            v: Vec<Scalar>,
        |
            g@ == good@ && b@ == bad@ && v@ == distances@ && #[trigger] call_ensures(
                R::log_ratios,
                (reals, &g, &b),
                v,
            ),
{
}

} // verus!
