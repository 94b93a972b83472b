//! Quasi-Monte-Carlo (Halton) sampler: deterministic low-discrepancy search.
//!
//! The trial index's radical inverse in a distinct prime base per parameter is mapped through
//! each parameter's distribution. It is a pure function of the trial index, so replay is exact.

use vstd::prelude::*;
use crate::named::Named;
use crate::axis::{float_axis, float_off_axis, int_axis};
use crate::distribution::{Bounds, DistModel, Distribution};
use crate::evolution::snap_int;
use crate::param::{Assignment, ParamModel, ParamSet, ParamValue};
use crate::reals::Reals;
use crate::sampler::Sampler;
use crate::scalar::{Scalar, ONE};
use crate::space::{DefModel, SearchSpace, SpaceModel};
use crate::trial::{HistoryModel, TrialHistory, TrialModel, TrialRecord};
#[allow(unused_imports)]
use crate::axis;
#[allow(unused_imports)]
use crate::evolution;
#[allow(unused_imports)]
use crate::models;
#[allow(unused_imports)]
use crate::reals;
#[allow(unused_imports)]
use crate::sampler;
#[allow(unused_imports)]
use crate::space;

verus! {

/// The first sixty-four primes: the bases of the sequence.
pub open spec fn primes() -> Seq<u64> {
    seq![
        2u64, 3, 5, 7, 11, 13, 17, 19, 23, 29, 31, 37, 41, 43, 47, 53, 59, 61, 67, 71, 73, 79, 83,
        89, 97, 101, 103, 107, 109, 113, 127, 131, 137, 139, 149, 151, 157, 163, 167, 173, 179,
        181, 191, 193, 197, 199, 211, 223, 227, 229, 233, 239, 241, 251, 257, 263, 269, 271, 277,
        281, 283, 293, 307, 311,
    ]
}

/// The `n`-th prime (0-indexed), used as the base for dimension `n`. Beyond the table, cycles
/// through it.
pub fn prime(n: usize) -> (p: u64)
    ensures
        p == primes()[n as int % 64],
        p >= 2,
{
    let table: [u64; 64] = [
        2, 3, 5, 7, 11, 13, 17, 19, 23, 29, 31, 37, 41, 43, 47, 53, 59, 61, 67, 71, 73, 79, 83, 89,
        97, 101, 103, 107, 109, 113, 127, 131, 137, 139, 149, 151, 157, 163, 167, 173, 179, 181,
        191, 193, 197, 199, 211, 223, 227, 229, 233, 239, 241, 251, 257, 263, 269, 271, 277, 281,
        283, 293, 307, 311,
    ];
    proof {
        assert(table@ =~= primes());
    }
    table[n % 64]
}

/// The digits of `i` in `base`, lowest first.
pub open spec fn digits(i: nat, base: nat) -> Seq<nat>
    decreases i,
{
    if i == 0 || base < 2 {
        Seq::empty()
    } else {
        proof {
            assert(i / base < i) by (nonlinear_arith)
                requires
                    i > 0,
                    base >= 2,
            ;
        }
        seq![i % base] + digits(i / base, base)
    }
}

/// The number with the given digits in `base`, lowest first.
pub open spec fn read_back(ds: Seq<nat>, base: nat) -> nat
    decreases ds.len(),
{
    if ds.len() == 0 {
        0
    } else {
        ds[0] + base * read_back(ds.drop_first(), base)
    }
}

/// Digits determine their number, so no two points of the sequence share their digits.
pub proof fn law_digits_read_back(i: nat, base: nat)
    requires
        base >= 2,
    ensures
        read_back(digits(i, base), base) == i,
    decreases i,
{
    if i > 0 {
        let ds = digits(i, base);
        assert(i / base < i) by (nonlinear_arith)
            requires
                i > 0,
                base >= 2,
        ;
        law_digits_read_back(i / base, base);
        assert(ds.drop_first() =~= digits(i / base, base));
        assert(i == i % base + base * (i / base)) by (nonlinear_arith)
            requires
                base >= 2,
        ;
    }
}

/// The digits of `i` in `base`, lowest first: the radical inverse reads them behind the point.
pub fn radical_digits(i: u64, base: u64) -> (r: Vec<u64>)
    requires
        base >= 2,
    ensures
        r@.map_values(|d: u64| d as nat) == digits(i as nat, base as nat),
        forall|k: int| 0 <= k < r@.len() ==> (#[trigger] r@[k]) < base,
{
    let mut out: Vec<u64> = Vec::new();
    let mut rest = i;
    let ghost f = |d: u64| d as nat;
    proof {
        assert(out@.map_values(f) + digits(i as nat, base as nat) =~= digits(
            i as nat,
            base as nat,
        ));
    }
    while rest > 0
        invariant
            base >= 2,
            f == (|d: u64| d as nat),
            out@.map_values(f) + digits(rest as nat, base as nat) == digits(
                i as nat,
                base as nat,
            ),
            forall|k: int| 0 <= k < out@.len() ==> (#[trigger] out@[k]) < base,
        decreases rest,
    {
        let ghost before = out@;
        let d = rest % base;
        out.push(d);
        proof {
            let tail = digits((rest / base) as nat, base as nat);
            assert(digits(rest as nat, base as nat) == seq![d as nat] + tail);
            assert(before.map_values(f) + (seq![d as nat] + tail) =~= out@.map_values(f) + tail);
            assert(rest / base < rest) by (nonlinear_arith)
                requires
                    rest > 0,
                    base >= 2,
            ;
        }
        rest = rest / base;
    }
    proof {
        assert(out@.map_values(f) + Seq::<nat>::empty() =~= out@.map_values(f));
    }
    out
}

/// A quasi-Monte-Carlo sampler over the Halton sequence.
#[derive(Debug)]
pub struct QmcSampler {
    skip: u64,
}

impl QmcSampler {
    /// How many leading sequence points are skipped.
    pub closed spec fn skips(self) -> u64 {
        self.skip
    }

    /// A sampler skipping the first five sequence points.
    pub fn new() -> (s: Self)
        ensures
            s.skips() == 5,
    {
        QmcSampler { skip: 5 }
    }

    /// Set how many leading sequence points to skip.
    pub fn with_skip(self, skip: u64) -> (s: Self)
        ensures
            s.skips() == skip,
    {
        QmcSampler { skip }
    }

    /// The sequence index of the trial after `trials` trials: one-based, and starting over after
    /// the greatest index.
    pub open spec fn index_of(self, trials: int) -> u64 {
        (trials as u64).wrapping_add(self.skips()).wrapping_add(1)
    }

    /// The 1-based sequence index of the trial after `trials` trials.
    pub fn index(&self, trials: usize) -> (i: u64)
        ensures
            i == self.index_of(trials as int),
            trials + self.skips() + 1 <= u64::MAX ==> i == trials + self.skips() + 1,
    {
        (trials as u64).wrapping_add(self.skip).wrapping_add(1)
    }
}

/// The bits of one half.
pub const HALF: u64 = 0x3fe0_0000_0000_0000;

/// The bits of one less the spacing of floats at one.
pub const BELOW_ONE: u64 = 0x3fef_ffff_ffff_fffe;

/// A number kept from zero to just below one.
pub open spec fn in_unit(u: Scalar) -> Scalar {
    u.clamped(Scalar { bits: 0 }, Scalar { bits: BELOW_ONE })
}

/// Whether `f` is the radical inverse of `index` in `base`: the fraction whose digits are those of
/// the index, mirrored at the point.
pub open spec fn is_inverse<R: Reals>(reals: &R, index: u64, base: u64, f: Scalar) -> bool {
    exists|ds: Seq<u64>|
        ds.map_values(|d: u64| d as nat) == digits(index as nat, base as nat)
            && #[trigger] reals::is_fraction(reals, ds, base, f)
}

/// The van der Corput / Halton radical inverse of `index` in `base`, a point of the unit interval.
pub fn radical_inverse<R: Reals>(index: u64, base: u64, reals: &R) -> (f: Scalar)
    requires
        base >= 2,
    ensures
        is_inverse(reals, index, base, f),
{
    let ds = radical_digits(index, base);
    let f = reals.fraction(&ds, base);
    proof {
        assert(reals::is_fraction(reals, ds@, base, f));
    }
    f
}

/// Whether `u` is the radical inverse of `index` in `base`, kept below one.
pub open spec fn is_unit<R: Reals>(reals: &R, index: u64, base: u64, u: Scalar) -> bool {
    exists|ds: Seq<u64>, f: Scalar|
        ds.map_values(|d: u64| d as nat) == digits(index as nat, base as nat)
            && #[trigger] reals::is_fraction(reals, ds, base, f) && u == f.clamped(
            Scalar { bits: 0 },
            Scalar { bits: BELOW_ONE },
        )
}

/// Whether `x` lies `u` of the way through an integer range, on its axis.
pub open spec fn is_int_at<R: Reals>(
    reals: &R,
    low: i64,
    high: i64,
    log: bool,
    u: Scalar,
    x: Scalar,
) -> bool {
    if log {
        exists|lo: Scalar, hi: Scalar, t: Scalar|
            axis::int_lies_at(reals, low, true, lo) && axis::int_lies_at(reals, high, true, hi)
                && #[trigger] reals::is_mix(reals, lo, hi, u, t) && reals::is_exp(reals, t, x)
    } else {
        reals::is_stretch(reals, low, high, u, x)
    }
}

/// Whether `v` is the value of a distribution at `u`, a number from zero to one.
pub open spec fn is_value_at<R: Reals>(
    reals: &R,
    dist: DistModel,
    u: Scalar,
    v: ParamModel,
) -> bool {
    match dist {
        DistModel::Float { bounds, log, step } => exists|lo: Scalar, hi: Scalar, t: Scalar|
            axis::lies_at(reals, bounds.low, log, lo) && axis::lies_at(reals, bounds.high, log, hi)
                && #[trigger] reals::is_mix(reals, lo, hi, u, t) && (v matches ParamModel::Float(x)
                && axis::is_off_axis(reals, bounds, log, step, t, x)),
        DistModel::Int { low, high, log, step } => exists|x: Scalar, whole: Scalar, k: i64|
            is_int_at(reals, low, high, log, u, x) && #[trigger] reals::is_floor(reals, x, whole)
                && #[trigger] reals::is_steps(reals, whole, low, step, k) && v == ParamModel::Int(
                evolution::snapped(
                    low as int,
                    high as int,
                    step as int,
                    if k < 0 {
                        0
                    } else {
                        k as int
                    },
                ) as i64,
            ),
        DistModel::Categorical { choices } => exists|i: usize| #[trigger]
            reals::is_parts(reals, u, choices.len() as usize, i) && v == ParamModel::Categorical(
                choices[if i < choices.len() {
                    i as int
                } else {
                    choices.len() - 1
                }],
            ),
        DistModel::Bool => v == ParamModel::Bool(
            Scalar { bits: HALF }.less(u) || Scalar { bits: HALF }.same(u),
        ),
    }
}

/// Whether `v` is the value of a distribution at a point of the sequence.
pub open spec fn is_value_of<R: Reals>(
    reals: &R,
    dist: DistModel,
    index: u64,
    base: u64,
    v: ParamModel,
) -> bool {
    exists|u: Scalar| #[trigger]
        is_unit(reals, index, base, u) && is_value_at(reals, dist, u, v)
}

/// Map a point of the unit interval to a concrete value in a distribution, in the manner of an
/// inverse distribution function. Numeric values are moved into their bounds.
pub fn unit_to_value<R: Reals>(dist: &Distribution, u: Scalar, reals: &R) -> (v: ParamValue)
    requires
        dist@.defect() is None,
    ensures
        dist@.fits(v@),
        dist@ matches DistModel::Float { bounds, .. } ==> (v@ matches ParamModel::Float(x)
            && !x.nan() && bounds.low.key() <= x.key() <= bounds.high.key()),
        is_value_at(reals, dist@, in_unit(u), v@),
{
    let u = u.clamp(&Scalar::zero(), &Scalar::from_bits(BELOW_ONE));
    let v = match dist {
        Distribution::Float { bounds, log, step } => {
            let (lo, hi) = float_axis(bounds, *log, reals);
            let t = reals.mix(lo, hi, u);
            proof {
                assert(reals::is_mix(reals, lo, hi, u, t));
            }
            ParamValue::Float(float_off_axis(bounds, *log, *step, t, reals))
        },
        Distribution::Int { low, high, log, step } => {
            let x = if *log {
                let (lo, hi) = int_axis(*low, *high, true, reals);
                let t = reals.mix(lo, hi, u);
                proof {
                    assert(reals::is_mix(reals, lo, hi, u, t));
                }
                reals.exp(t)
            } else {
                reals.stretch(*low, *high, u)
            };
            let whole = reals.floor(x);
            let k = reals.steps(whole, *low, *step);
            proof {
                assert(is_int_at(reals, *low, *high, *log, u, x));
                assert(reals::is_floor(reals, x, whole));
                assert(reals::is_steps(reals, whole, *low, *step, k));
            }
            let k: i64 = if k < 0 {
                0
            } else {
                k
            };
            ParamValue::Int(snap_int(*low, *high, *step, k))
        },
        Distribution::Categorical { choices } => {
            let raw = reals.parts(u, choices.len());
            let i: usize = if raw < choices.len() {
                raw
            } else {
                choices.len() - 1
            };
            proof {
                assert(models::of(choices@)[i as int] == choices@[i as int]@);
                assert(reals::is_parts(reals, u, choices@.len() as usize, raw));
            }
            ParamValue::Categorical(choices[i].clone())
        },
        Distribution::Bool => ParamValue::Bool(Scalar::from_bits(HALF).le(&u)),
    };
    proof {
        assert(is_value_at(reals, dist@, u, v@));
    }
    v
}

/// Whether both are numbers, the first no greater than the second.
pub open spec fn at_most(a: Scalar, b: Scalar) -> bool {
    !a.nan() && !b.nan() && a.key() <= b.key()
}

/// Whether arithmetic answers a question always alike where a value of a distribution is asked
/// for, and greater questions with answers that are no smaller.
pub open spec fn is_orderly<R: Reals>(reals: &R) -> bool {
    &&& forall|x: Scalar, a: Scalar, y: Scalar, b: Scalar|
        at_most(x, y) && #[trigger] reals::is_ln(reals, x, a) && #[trigger] reals::is_ln(reals, y, b)
            ==> at_most(a, b) && (x == y ==> a == b)
    &&& forall|x: i64, a: Scalar, y: i64, b: Scalar|
        x <= y && #[trigger] reals::is_of_int(reals, x, a) && #[trigger] reals::is_of_int(
            reals,
            y,
            b,
        ) ==> at_most(a, b) && (x == y ==> a == b)
    &&& forall|low: Scalar, high: Scalar, t: Scalar, a: Scalar, u: Scalar, b: Scalar|
        at_most(low, high) && at_most(t, u) && #[trigger] reals::is_mix(reals, low, high, t, a)
            && #[trigger] reals::is_mix(reals, low, high, u, b) ==> at_most(a, b)
    &&& forall|low: i64, high: i64, t: Scalar, a: Scalar, u: Scalar, b: Scalar|
        low <= high && at_most(t, u) && #[trigger] reals::is_stretch(reals, low, high, t, a)
            && #[trigger] reals::is_stretch(reals, low, high, u, b) ==> at_most(a, b)
    &&& forall|x: Scalar, a: Scalar, y: Scalar, b: Scalar|
        at_most(x, y) && #[trigger] reals::is_exp(reals, x, a) && #[trigger] reals::is_exp(
            reals,
            y,
            b,
        ) ==> at_most(a, b)
    &&& forall|x: Scalar, a: Scalar, y: Scalar, b: Scalar|
        at_most(x, y) && #[trigger] reals::is_floor(reals, x, a) && #[trigger] reals::is_floor(
            reals,
            y,
            b,
        ) ==> at_most(a, b)
    &&& forall|low: Scalar, step: Scalar, x: Scalar, a: Scalar, y: Scalar, b: Scalar|
        at_most(x, y) && #[trigger] reals::is_snap(reals, x, low, step, a)
            && #[trigger] reals::is_snap(reals, y, low, step, b) ==> at_most(a, b)
    &&& forall|low: Scalar, high: Scalar, step: Scalar, a: Scalar, b: Scalar|
        #[trigger] reals::is_last_step(reals, low, high, step, a)
            && #[trigger] reals::is_last_step(reals, low, high, step, b) ==> a == b
    &&& forall|low: i64, step: i64, x: Scalar, a: i64, y: Scalar, b: i64|
        at_most(x, y) && #[trigger] reals::is_steps(reals, x, low, step, a)
            && #[trigger] reals::is_steps(reals, y, low, step, b) ==> a <= b
    &&& forall|n: usize, t: Scalar, a: usize, u: Scalar, b: usize|
        at_most(t, u) && #[trigger] reals::is_parts(reals, t, n, a) && #[trigger] reals::is_parts(
            reals,
            u,
            n,
            b,
        ) ==> a <= b
}

/// Whether `v` does not come after `w` in a distribution: numbers by their size, choices by their
/// place, and `false` before `true`.
pub open spec fn comes_no_later(dist: DistModel, v: ParamModel, w: ParamModel) -> bool {
    match (dist, v, w) {
        (DistModel::Float { .. }, ParamModel::Float(x), ParamModel::Float(y)) => at_most(x, y),
        (DistModel::Int { .. }, ParamModel::Int(x), ParamModel::Int(y)) => x <= y,
        (DistModel::Categorical { choices }, ParamModel::Categorical(x), ParamModel::Categorical(
            y,
        )) => exists|i: int, j: int|
            0 <= i <= j < choices.len() && #[trigger] choices[i] == x && #[trigger] choices[j] == y,
        (DistModel::Bool, ParamModel::Bool(x), ParamModel::Bool(y)) => x ==> y,
        _ => false,
    }
}

/// A value of a distribution does not come before the value at a smaller point of the unit
/// interval, where arithmetic is orderly.
pub proof fn law_values_follow_the_unit<R: Reals>(
    reals: &R,
    dist: DistModel,
    t: Scalar,
    v: ParamModel,
    u: Scalar,
    w: ParamModel,
)
    requires
        is_orderly(reals),
        dist.defect() is None,
        at_most(t, u),
        is_value_at(reals, dist, in_unit(t), v),
        is_value_at(reals, dist, in_unit(u), w),
    ensures
        comes_no_later(dist, v, w),
{
    values_follow(reals, dist, in_unit(t), v, in_unit(u), w);
}

/// Whether arithmetic counts no `n`-th part below zero, and all but the last one below the point
/// just before one.
pub open spec fn counts_the_ends<R: Reals>(reals: &R, n: usize) -> bool {
    &&& forall|i: usize| #[trigger] reals::is_parts(reals, Scalar { bits: 0 }, n, i) ==> i == 0
    &&& forall|i: usize| #[trigger]
        reals::is_parts(reals, Scalar { bits: BELOW_ONE }, n, i) ==> i >= n - 1
}

/// The ends of the unit interval give the first choice and the last one, and `false` and `true`.
pub proof fn law_unit_ends_give_the_ends<R: Reals>(
    reals: &R,
    dist: DistModel,
    v: ParamModel,
    w: ParamModel,
)
    requires
        dist.defect() is None,
        is_value_at(reals, dist, in_unit(Scalar { bits: 0 }), v),
        is_value_at(reals, dist, in_unit(Scalar { bits: ONE }), w),
        dist matches DistModel::Categorical { choices } ==> choices.len() <= usize::MAX
            && counts_the_ends(reals, choices.len() as usize),
    ensures
        dist matches DistModel::Categorical { choices } ==> v == ParamModel::Categorical(
            choices.first(),
        ) && w == ParamModel::Categorical(choices.last()),
        dist is Bool ==> v == ParamModel::Bool(false) && w == ParamModel::Bool(true),
{
    assert(in_unit(Scalar { bits: 0 }) == Scalar { bits: 0 });
    assert(in_unit(Scalar { bits: ONE }) == Scalar { bits: BELOW_ONE });
}

proof fn values_follow<R: Reals>(
    reals: &R,
    dist: DistModel,
    t: Scalar,
    v: ParamModel,
    u: Scalar,
    w: ParamModel,
)
    requires
        is_orderly(reals),
        dist.defect() is None,
        at_most(t, u),
        is_value_at(reals, dist, t, v),
        is_value_at(reals, dist, u, w),
    ensures
        comes_no_later(dist, v, w),
{
    match dist {
        DistModel::Float { bounds, log, step } => {
            let (lo, hi, at) = choose|lo: Scalar, hi: Scalar, at: Scalar|
                axis::lies_at(reals, bounds.low, log, lo) && axis::lies_at(
                    reals,
                    bounds.high,
                    log,
                    hi,
                ) && #[trigger] reals::is_mix(reals, lo, hi, t, at) && (v matches ParamModel::Float(
                    x,
                ) && axis::is_off_axis(reals, bounds, log, step, at, x));
            let (lo2, hi2, at2) = choose|lo: Scalar, hi: Scalar, at: Scalar|
                axis::lies_at(reals, bounds.low, log, lo) && axis::lies_at(
                    reals,
                    bounds.high,
                    log,
                    hi,
                ) && #[trigger] reals::is_mix(reals, lo, hi, u, at) && (w matches ParamModel::Float(
                    x,
                ) && axis::is_off_axis(reals, bounds, log, step, at, x));
            assert(at_most(bounds.low, bounds.high));
            assert(at_most(bounds.low, bounds.low) && at_most(bounds.high, bounds.high));
            assert(lo == lo2 && hi == hi2 && at_most(lo, hi));
            assert(at_most(at, at2));
            let (x, y) = (v->Float_0, w->Float_0);
            let (plain, snapped, top) = choose|plain: Scalar, snapped: Scalar, top: Scalar|
                #[trigger] axis::is_plain(reals, at, log, plain) && #[trigger] axis::is_stepped(
                    reals,
                    plain,
                    bounds.low,
                    step,
                    snapped,
                ) && #[trigger] axis::is_top(reals, bounds, step, top) && x == bounds.settled(
                    snapped.clamped(bounds.low, top),
                );
            let (plain2, snapped2, top2) = choose|plain: Scalar, snapped: Scalar, top: Scalar|
                #[trigger] axis::is_plain(reals, at2, log, plain) && #[trigger] axis::is_stepped(
                    reals,
                    plain,
                    bounds.low,
                    step,
                    snapped,
                ) && #[trigger] axis::is_top(reals, bounds, step, top) && y == bounds.settled(
                    snapped.clamped(bounds.low, top),
                );
            assert(at_most(plain, plain2));
            assert(at_most(snapped, snapped2));
            assert(top == top2);
        },
        DistModel::Int { low, high, log, step } => {
            let (x, whole, k) = choose|x: Scalar, whole: Scalar, k: i64|
                is_int_at(reals, low, high, log, t, x) && #[trigger] reals::is_floor(
                    reals,
                    x,
                    whole,
                ) && #[trigger] reals::is_steps(reals, whole, low, step, k) && v == ParamModel::Int(
                    evolution::snapped(
                        low as int,
                        high as int,
                        step as int,
                        if k < 0 {
                            0
                        } else {
                            k as int
                        },
                    ) as i64,
                );
            let (x2, whole2, k2) = choose|x: Scalar, whole: Scalar, k: i64|
                is_int_at(reals, low, high, log, u, x) && #[trigger] reals::is_floor(
                    reals,
                    x,
                    whole,
                ) && #[trigger] reals::is_steps(reals, whole, low, step, k) && w == ParamModel::Int(
                    evolution::snapped(
                        low as int,
                        high as int,
                        step as int,
                        if k < 0 {
                            0
                        } else {
                            k as int
                        },
                    ) as i64,
                );
            int_axis_follows(reals, low, high, log, t, x, u, x2);
            assert(at_most(whole, whole2));
            assert(k <= k2);
            let (a, b) = (
                if k < 0 {
                    0
                } else {
                    k as int
                },
                if k2 < 0 {
                    0
                } else {
                    k2 as int
                },
            );
            evolution::law_snapping_stays_on_the_steps(low as int, high as int, step as int, a);
            evolution::law_snapping_stays_on_the_steps(low as int, high as int, step as int, b);
            assert(a * step <= b * step) by (nonlinear_arith)
                requires
                    a <= b,
                    step >= 1,
            ;
        },
        DistModel::Categorical { choices } => {
            let n = choices.len() as usize;
            let i = choose|i: usize| #[trigger]
                reals::is_parts(reals, t, n, i) && v == ParamModel::Categorical(
                    choices[if i < choices.len() {
                        i as int
                    } else {
                        choices.len() - 1
                    }],
                );
            let j = choose|i: usize| #[trigger]
                reals::is_parts(reals, u, n, i) && w == ParamModel::Categorical(
                    choices[if i < choices.len() {
                        i as int
                    } else {
                        choices.len() - 1
                    }],
                );
            assert(i <= j);
            let last = choices.len() - 1;
            let (a, b) = (
                if i < choices.len() {
                    i as int
                } else {
                    last
                },
                if j < choices.len() {
                    j as int
                } else {
                    last
                },
            );
            assert(choices[a] == v->Categorical_0 && choices[b] == w->Categorical_0);
        },
        DistModel::Bool => {},
    }
}

proof fn int_axis_follows<R: Reals>(
    reals: &R,
    low: i64,
    high: i64,
    log: bool,
    t: Scalar,
    x: Scalar,
    u: Scalar,
    y: Scalar,
)
    requires
        is_orderly(reals),
        low <= high,
        at_most(t, u),
        is_int_at(reals, low, high, log, t, x),
        is_int_at(reals, low, high, log, u, y),
    ensures
        at_most(x, y),
{
    if log {
        let (lo, hi, at) = choose|lo: Scalar, hi: Scalar, at: Scalar|
            axis::int_lies_at(reals, low, true, lo) && axis::int_lies_at(reals, high, true, hi)
                && #[trigger] reals::is_mix(reals, lo, hi, t, at) && reals::is_exp(reals, at, x);
        let (lo2, hi2, at2) = choose|lo: Scalar, hi: Scalar, at: Scalar|
            axis::int_lies_at(reals, low, true, lo) && axis::int_lies_at(reals, high, true, hi)
                && #[trigger] reals::is_mix(reals, lo, hi, u, at) && reals::is_exp(reals, at, y);
        int_ends_follow(reals, low, lo, low, lo2);
        int_ends_follow(reals, high, hi, high, hi2);
        int_ends_follow(reals, low, lo, high, hi);
        assert(at_most(at, at2));
    }
}

proof fn int_ends_follow<R: Reals>(reals: &R, v: i64, a: Scalar, w: i64, b: Scalar)
    requires
        is_orderly(reals),
        v <= w,
        axis::int_lies_at(reals, v, true, a),
        axis::int_lies_at(reals, w, true, b),
    ensures
        at_most(a, b),
        v == w ==> a == b,
{
    let x = choose|x: Scalar| #[trigger]
        reals::is_of_int(reals, v, x) && axis::lies_at(reals, x, true, a);
    let y = choose|x: Scalar| #[trigger]
        reals::is_of_int(reals, w, x) && axis::lies_at(reals, x, true, b);
    assert(at_most(x, y));
    assert(reals::is_ln(reals, x, a) && reals::is_ln(reals, y, b));
}

/// Whether a point of the sequence goes on by one parameter from `before` to `after`: an active
/// parameter takes its value in `base`, any other is passed over.
pub open spec fn takes_next<R: Reals>(
    reals: &R,
    def: DefModel,
    index: u64,
    base: u64,
    before: Assignment,
    after: Assignment,
) -> bool {
    if def.active(before) {
        &&& after == before.insert(def.name, after[def.name])
        &&& def.dist.fits(after[def.name])
        &&& is_value_of(reals, def.dist, index, base, after[def.name])
    } else {
        after == before
    }
}

/// Whether `a` comes of taking the first `n` parameters in declaration order from nothing, each
/// active one at the point of the sequence in its own base.
pub open spec fn is_traced<R: Reals>(
    reals: &R,
    defs: space::SpaceModel,
    n: nat,
    index: u64,
    a: Assignment,
) -> bool
    decreases n,
{
    if n == 0 {
        a == Map::<Seq<char>, ParamModel>::empty()
    } else {
        exists|before: Assignment|
            is_traced(reals, defs, (n - 1) as nat, index, before) && #[trigger] takes_next(
                reals,
                defs[n - 1],
                index,
                primes()[(n - 1) % 64],
                before,
                a,
            )
    }
}

proof fn trace_grows<R: Reals>(
    reals: &R,
    defs: space::SpaceModel,
    n: nat,
    index: u64,
    before: Assignment,
    after: Assignment,
)
    requires
        is_traced(reals, defs, n, index, before),
        takes_next(reals, defs[n as int], index, primes()[n as int % 64], before, after),
    ensures
        is_traced(reals, defs, n + 1, index, after),
{
    let m = n + 1;
    assert((m - 1) as nat == n);
    assert(takes_next(reals, defs[m - 1], index, primes()[(m - 1) % 64], before, after));
}

/// Whether the values of the first `n` parameters are those at a point of the sequence, each in
/// its own base.
pub open spec fn is_point<R: Reals>(
    reals: &R,
    defs: space::SpaceModel,
    n: int,
    index: u64,
    a: Assignment,
) -> bool {
    forall|i: int|
        0 <= i < n && a.contains_key((#[trigger] defs[i]).name) ==> is_value_of(
            reals,
            defs[i].dist,
            index,
            primes()[i % 64],
            a[defs[i].name],
        )
}

proof fn point_grows<R: Reals>(
    reals: &R,
    defs: space::SpaceModel,
    n: int,
    index: u64,
    a: Assignment,
    v: ParamModel,
)
    requires
        space::space_ordered(defs),
        0 <= n < defs.len(),
        is_point(reals, defs, n, index, a),
        is_value_of(reals, defs[n].dist, index, primes()[n % 64], v),
    ensures
        is_point(reals, defs, n + 1, index, a.insert(defs[n].name, v)),
{
    assert(space::def_ordered(defs, n));
    assert forall|i: int| 0 <= i < n implies (#[trigger] defs[i]).name != defs[n].name by {
        if defs[i].name == defs[n].name {
            assert(space::declared_before(defs, n, defs[n].name));
        }
    }
}

impl Default for QmcSampler {
    fn default() -> (s: Self)
        ensures
            s.skips() == 5,
    {
        QmcSampler::new()
    }
}

impl Named for QmcSampler {
    open spec fn label(&self) -> Seq<char> {
        "qmc"@
    }

    fn name(&self) -> (r: &'static str) {
        "qmc"
    }
}

impl<R: Reals> Sampler<R> for QmcSampler {
    open spec fn proposes(
        &self,
        reals: &R,
        space: SpaceModel,
        history: HistoryModel,
        p: Assignment,
        after: Self,
    ) -> bool {
        &&& after == *self
        &&& is_traced(reals, space, space.len(), self.index_of(history.len() as int), p)
        &&& space::space_ordered(space) ==> space::legal(space, p) && is_point(
            reals,
            space,
            space.len() as int,
            self.index_of(history.len() as int),
            p,
        )
    }

    open spec fn observes(&self, trial: TrialModel, after: Self) -> bool {
        after == *self
    }

    fn suggest(
        &mut self,
        space: &SearchSpace,
        history: &TrialHistory,
        reals: &R,
    ) -> (p: ParamSet) {
        let index = self.index(history.len());
        let mut params = ParamSet::new();
        let defs = space.params();
        let mut i: usize = 0;
        while i < defs.len()
            invariant
                i <= space@.len(),
                defs@.len() == space@.len(),
                forall|k: int| 0 <= k < defs@.len() ==> (#[trigger] defs@[k])@ == space@[k],
                space::drawable_space(space@),
                is_traced(reals, space@, i as nat, index, params@),
                space::space_ordered(space@) ==> sampler::legal_prefix(space@, i as int, params@),
                space::space_ordered(space@) ==> is_point(reals, space@, i as int, index, params@),
            decreases defs@.len() - i,
        {
            let def = &defs[i];
            let ghost before = params@;
            proof {
                assert(def@ == space@[i as int]);
            }
            if SearchSpace::is_active(def, &params) {
                let base = prime(i);
                let u = radical_inverse(index, base, reals);
                let value = unit_to_value(&def.distribution, u, reals);
                proof {
                    assert(is_unit(reals, index, base, in_unit(u)));
                    assert(is_value_of(reals, def.distribution@, index, base, value@));
                    if space::space_ordered(space@) {
                        sampler::legal_insert(space@, i as int, params@, value@);
                        point_grows(reals, space@, i as int, index, params@, value@);
                    }
                }
                params.insert(def.name.as_str(), value);
            } else {
                proof {
                    if space::space_ordered(space@) {
                        assert(space::def_ordered(space@, i as int));
                        if params@.contains_key(space@[i as int].name) {
                            assert(space::declared_before(
                                space@,
                                i as int,
                                space@[i as int].name,
                            ));
                        }
                        sampler::legal_skip(space@, i as int, params@);
                    }
                }
            }
            proof {
                assert(takes_next(
                    reals,
                    space@[i as int],
                    index,
                    primes()[i as int % 64],
                    before,
                    params@,
                ));
                trace_grows(reals, space@, i as nat, index, before, params@);
            }
            i += 1;
        }
        params
    }

    fn on_trial_complete(&mut self, trial: &TrialRecord) {
    }
}

proof fn digits_are_below(i: nat, base: nat, k: int)
    requires
        base >= 2,
        0 <= k < digits(i, base).len(),
    ensures
        digits(i, base)[k] < base,
    decreases i,
{
    if i > 0 {
        assert(i / base < i) by (nonlinear_arith)
            requires
                i > 0,
                base >= 2,
        ;
        if k > 0 {
            digits_are_below(i / base, base, k - 1);
        }
    }
}

/// Each parameter follows the Halton sequence of its own base: what trial number `n` gets is the
/// value at the fraction behind whose point stand the digits, lowest first, of one more than `n`
/// and the skipped points.
pub proof fn law_parameters_follow_the_halton_sequence<R: Reals>(
    s: QmcSampler,
    reals: &R,
    space: SpaceModel,
    history: HistoryModel,
    p: Assignment,
    after: QmcSampler,
    i: int,
)
    requires
        s.proposes(reals, space, history, p, after),
        space::space_ordered(space),
        0 <= i < space.len(),
        p.contains_key(space[i].name),
        history.len() + s.skips() + 1 <= u64::MAX,
    ensures
        exists|ds: Seq<u64>, f: Scalar|
            (forall|k: int| 0 <= k < ds.len() ==> #[trigger] ds[k] < primes()[i % 64])
                && read_back(ds.map_values(|d: u64| d as nat), primes()[i % 64] as nat)
                == history.len() + s.skips() + 1 && #[trigger] reals::is_fraction(
                reals,
                ds,
                primes()[i % 64],
                f,
            ) && is_value_at(
                reals,
                space[i].dist,
                f.clamped(Scalar { bits: 0 }, Scalar { bits: 0x3fef_ffff_ffff_fffe }),
                p[space[i].name],
            ),
{
    let index = s.index_of(history.len() as int);
    let base = primes()[i % 64];
    assert(base >= 2) by {
        primes_grow();
    }
    let u = choose|u: Scalar| #[trigger]
        is_unit(reals, index, base, u) && is_value_at(reals, space[i].dist, u, p[space[i].name]);
    let (ds, f) = choose|ds: Seq<u64>, f: Scalar|
        ds.map_values(|d: u64| d as nat) == digits(index as nat, base as nat)
            && #[trigger] reals::is_fraction(reals, ds, base, f) && u == f.clamped(
            Scalar { bits: 0 },
            Scalar { bits: BELOW_ONE },
        );
    law_digits_read_back(index as nat, base as nat);
    assert forall|k: int| 0 <= k < ds.len() implies #[trigger] ds[k] < base by {
        assert(ds.map_values(|d: u64| d as nat)[k] == ds[k]);
        digits_are_below(index as nat, base as nat, k);
    }
    assert(index == history.len() + s.skips() + 1);
}

proof fn primes_grow()
    ensures
        primes().len() == 64,
        forall|i: int| 0 <= i < 64 ==> #[trigger] primes()[i] >= 2,
{
}

/// A float at a point of the unit interval lies that far between the ends of its axis, which are
/// the bounds or their logarithms.
pub proof fn law_floats_lie_along_their_axis<R: Reals>(
    reals: &R,
    bounds: Bounds,
    log: bool,
    u: Scalar,
    v: ParamModel,
)
    requires
        is_value_at(reals, (DistModel::Float { bounds, log, step: None }), u, v),
        bounds.low.finite(),
        bounds.high.finite(),
        bounds.low.key() <= bounds.high.key(),
    ensures
        !log ==> exists|t: Scalar| #[trigger]
            reals::is_mix(reals, bounds.low, bounds.high, u, t) && (!t.nan() ==> (bounds.low.key()
                <= t.key() <= bounds.high.key() ==> v == ParamModel::Float(t)) && (t.key()
                < bounds.low.key() ==> v == ParamModel::Float(bounds.low)) && (bounds.high.key()
                < t.key() ==> v == ParamModel::Float(bounds.high))),
        log ==> exists|lo: Scalar, hi: Scalar, t: Scalar, raw: Scalar|
            reals::is_ln(reals, bounds.low, lo) && reals::is_ln(reals, bounds.high, hi)
                && #[trigger] reals::is_mix(reals, lo, hi, u, t) && #[trigger] reals::is_exp(
                reals,
                t,
                raw,
            ) && (!raw.nan() ==> (bounds.low.key() <= raw.key() <= bounds.high.key() ==> v
                == ParamModel::Float(raw)) && (raw.key() < bounds.low.key() ==> v
                == ParamModel::Float(bounds.low)) && (bounds.high.key() < raw.key() ==> v
                == ParamModel::Float(bounds.high))),
{
    let x = v->Float_0;
    let (lo, hi, t) = choose|lo: Scalar, hi: Scalar, t: Scalar|
        axis::lies_at(reals, bounds.low, log, lo) && axis::lies_at(reals, bounds.high, log, hi)
            && #[trigger] reals::is_mix(reals, lo, hi, u, t) && axis::is_off_axis(
            reals,
            bounds,
            log,
            None,
            t,
            x,
        );
    if log {
        axis::law_log_axes_give_back_the_exponential(reals, bounds, t, x);
        let raw = choose|raw: Scalar| #[trigger]
            reals::is_exp(reals, t, raw) && (!raw.nan() ==> (bounds.low.key() <= raw.key()
                <= bounds.high.key() ==> x == raw) && (raw.key() < bounds.low.key() ==> x
                == bounds.low) && (bounds.high.key() < raw.key() ==> x == bounds.high));
        assert(reals::is_mix(reals, lo, hi, u, t) && reals::is_exp(reals, t, raw));
    } else {
        if !t.nan() {
            axis::law_plain_axes_give_back_what_lies_inside(reals, bounds, t, x);
        }
        assert(reals::is_mix(reals, bounds.low, bounds.high, u, t));
    }
}

/// An integer at a point of the unit interval lies that far through its range: what is reached,
/// rounded down, is moved to a step.
pub proof fn law_integers_lie_along_their_axis<R: Reals>(
    reals: &R,
    low: i64,
    high: i64,
    log: bool,
    step: i64,
    u: Scalar,
    v: ParamModel,
)
    requires
        is_value_at(reals, (DistModel::Int { low, high, log, step }), u, v),
        low <= high,
        step >= 1,
    ensures
        exists|x: Scalar, whole: Scalar, k: i64|
            (!log ==> reals::is_stretch(reals, low, high, u, x)) && (log ==> exists|
                lo: Scalar,
                hi: Scalar,
                t: Scalar,
            |
                axis::int_lies_at(reals, low, true, lo) && axis::int_lies_at(reals, high, true, hi)
                    && #[trigger] reals::is_mix(reals, lo, hi, u, t) && reals::is_exp(reals, t, x))
                && #[trigger] reals::is_floor(reals, x, whole) && #[trigger] reals::is_steps(
                reals,
                whole,
                low,
                step,
                k,
            ) && (v matches ParamModel::Int(r) && low <= r <= high && (r - low) % (step as int) == 0
                && (low <= low + k * step <= high ==> r == low + k * step)),
{
    let (x, whole, k) = choose|x: Scalar, whole: Scalar, k: i64|
        is_int_at(reals, low, high, log, u, x) && #[trigger] reals::is_floor(reals, x, whole)
            && #[trigger] reals::is_steps(reals, whole, low, step, k) && v == ParamModel::Int(
            evolution::snapped(
                low as int,
                high as int,
                step as int,
                if k < 0 {
                    0
                } else {
                    k as int
                },
            ) as i64,
        );
    let at = if k < 0 {
        0
    } else {
        k as int
    };
    evolution::law_snapping_stays_on_the_steps(low as int, high as int, step as int, at);
    let (l, h, s, n) = (low as int, high as int, step as int, k as int);
    vstd::arithmetic::div_mod::lemma_fundamental_div_mod(h - l, s);
    vstd::arithmetic::div_mod::lemma_mod_bound(h - l, s);
    let q = (h - l) / s;
    assert(s * q == q * s) by (nonlinear_arith);
    assert(n < 0 ==> n * s < 0) by (nonlinear_arith)
        requires
            s >= 1,
    ;
    assert(n * s <= h - l ==> n <= q) by {
        if n * s <= h - l && n > q {
            assert(n * s >= q * s + s) by (nonlinear_arith)
                requires
                    n >= q + 1,
                    s >= 1,
            ;
        }
    }
    assert(n <= q ==> n * s <= q * s) by (nonlinear_arith)
        requires
            s >= 1,
    ;
    assert(reals::is_floor(reals, x, whole) && reals::is_steps(reals, whole, low, step, k));
}

/// A choice at a point of the unit interval is the one in whose equal part the point lies.
pub proof fn law_choices_share_the_unit_equally<R: Reals>(
    reals: &R,
    choices: Seq<Seq<char>>,
    u: Scalar,
    v: ParamModel,
)
    requires
        is_value_at(reals, (DistModel::Categorical { choices }), u, v),
        choices.len() > 0,
    ensures
        exists|i: usize| #[trigger]
            reals::is_parts(reals, u, choices.len() as usize, i) && (i < choices.len() ==> v
                == ParamModel::Categorical(choices[i as int])),
{
}

} // verus!
