//! The modeling axis of a numeric parameter: its range, or the logarithms of it.

use vstd::prelude::*;
use crate::distribution::Bounds;
use crate::evolution::snap_int;
use crate::reals::Reals;
use crate::scalar::Scalar;
#[allow(unused_imports)]
use crate::evolution;
#[allow(unused_imports)]
use crate::reals;

verus! {

/// Whether a number lies at `t` on an axis: at itself, or at its logarithm.
pub open spec fn lies_at<R: Reals>(reals: &R, x: Scalar, log: bool, t: Scalar) -> bool {
    if log {
        reals::is_ln(reals, x, t)
    } else {
        t == x
    }
}

/// Whether an integer lies at `t` on an axis.
pub open spec fn int_lies_at<R: Reals>(reals: &R, v: i64, log: bool, t: Scalar) -> bool {
    exists|x: Scalar| #[trigger] reals::is_of_int(reals, v, x) && lies_at(reals, x, log, t)
}

/// Whether `x` is the number at `t` on an axis: `t` itself, or its exponential.
pub open spec fn is_plain<R: Reals>(reals: &R, t: Scalar, log: bool, x: Scalar) -> bool {
    if log {
        reals::is_exp(reals, t, x)
    } else {
        x == t
    }
}

/// Whether `r` is `x` moved to a whole step from `low`, if there are steps.
pub open spec fn is_stepped<R: Reals>(
    reals: &R,
    x: Scalar,
    low: Scalar,
    step: Option<Scalar>,
    r: Scalar,
) -> bool {
    match step {
        Some(s) => reals::is_snap(reals, x, low, s, r),
        None => r == x,
    }
}

/// Whether `top` is the greatest value of a float range: its upper end, or the last of its steps.
pub open spec fn is_top<R: Reals>(
    reals: &R,
    bounds: Bounds,
    step: Option<Scalar>,
    top: Scalar,
) -> bool {
    match step {
        Some(s) => exists|last: Scalar| #[trigger]
            reals::is_last_step(reals, bounds.low, bounds.high, s, last) && top == if last.nan() {
                bounds.high
            } else {
                last.clamped(bounds.low, bounds.high)
            },
        None => top == bounds.high,
    }
}

/// The greatest value of a float range: its upper end, or the last of its steps.
pub fn float_top<R: Reals>(bounds: &Bounds, step: Option<Scalar>, reals: &R) -> (top: Scalar)
    ensures
        is_top(reals, *bounds, step, top),
        !bounds.low.nan() && !bounds.high.nan() && bounds.low.key() <= bounds.high.key()
            ==> !top.nan() && bounds.low.key() <= top.key() <= bounds.high.key(),
{
    match step {
        Some(s) => {
            let last = reals.last_step(bounds.low, bounds.high, s);
            proof {
                assert(reals::is_last_step(reals, bounds.low, bounds.high, s, last));
            }
            if last.is_nan() {
                bounds.high
            } else {
                last.clamp(&bounds.low, &bounds.high)
            }
        },
        None => bounds.high,
    }
}

/// Whether `x` is the number of a float range that lies at `t` on its axis.
pub open spec fn is_off_axis<R: Reals>(
    reals: &R,
    bounds: Bounds,
    log: bool,
    step: Option<Scalar>,
    t: Scalar,
    x: Scalar,
) -> bool {
    exists|plain: Scalar, snapped: Scalar, top: Scalar| #[trigger]
        is_plain(reals, t, log, plain) && #[trigger] is_stepped(
            reals,
            plain,
            bounds.low,
            step,
            snapped,
        ) && #[trigger] is_top(reals, bounds, step, top) && x == bounds.settled(
            snapped.clamped(bounds.low, top),
        )
}

/// Whether `v` is the integer of a range that lies at `t` on its axis.
pub open spec fn is_int_off_axis<R: Reals>(
    reals: &R,
    low: i64,
    high: i64,
    log: bool,
    step: i64,
    t: Scalar,
    v: i64,
) -> bool {
    exists|plain: Scalar, k: i64| #[trigger]
        is_plain(reals, t, log, plain) && #[trigger] reals::is_steps(reals, plain, low, step, k)
            && v == evolution::snapped(low as int, high as int, step as int, k as int)
}

/// A number, or `least` in place of one below it and of a NaN.
pub open spec fn at_least(x: Scalar, least: Scalar) -> Scalar {
    if x.less(least) || x.nan() {
        least
    } else {
        x
    }
}

/// The ends of the axis of a float range.
pub fn float_axis<R: Reals>(bounds: &Bounds, log: bool, reals: &R) -> (r: (Scalar, Scalar))
    ensures
        lies_at(reals, bounds.low, log, r.0),
        lies_at(reals, bounds.high, log, r.1),
{
    if log {
        (reals.ln(bounds.low), reals.ln(bounds.high))
    } else {
        (bounds.low, bounds.high)
    }
}

/// The ends of the axis of an integer range.
pub(crate) fn int_axis<R: Reals>(low: i64, high: i64, log: bool, reals: &R) -> (r: (
    Scalar,
    Scalar,
))
    ensures
        int_lies_at(reals, low, log, r.0),
        int_lies_at(reals, high, log, r.1),
{
    let (lo, hi) = (reals.of_int(low), reals.of_int(high));
    proof {
        assert(reals::is_of_int(reals, low, lo));
        assert(reals::is_of_int(reals, high, hi));
    }
    if log {
        (reals.ln(lo), reals.ln(hi))
    } else {
        (lo, hi)
    }
}

/// Where a number lies on an axis; a logarithm is taken of nothing below `least`.
pub fn onto_axis<R: Reals>(x: Scalar, log: bool, least: Scalar, reals: &R) -> (t: Scalar)
    ensures
        lies_at(
            reals,
            if log {
                at_least(x, least)
            } else {
                x
            },
            log,
            t,
        ),
{
    if log {
        if x.lt(&least) || x.is_nan() {
            reals.ln(least)
        } else {
            reals.ln(x)
        }
    } else {
        x
    }
}

/// The number of a float range that lies at `t` on its axis, snapped to `step` if there is one
/// and moved into the range.
pub fn float_off_axis<R: Reals>(
    bounds: &Bounds,
    log: bool,
    step: Option<Scalar>,
    t: Scalar,
    reals: &R,
) -> (x: Scalar)
    requires
        !bounds.low.nan(),
        !bounds.high.nan(),
        bounds.low.key() <= bounds.high.key(),
    ensures
        !x.nan() && bounds.low.key() <= x.key() <= bounds.high.key(),
        is_off_axis(reals, *bounds, log, step, t, x),
{
    let plain = if log {
        reals.exp(t)
    } else {
        t
    };
    let snapped = match step {
        Some(s) => reals.snap(plain, bounds.low, s),
        None => plain,
    };
    proof {
        assert(is_plain(reals, t, log, plain));
        assert(is_stepped(reals, plain, bounds.low, step, snapped));
    }
    let top = float_top(bounds, step, reals);
    bounds.settle(snapped.clamp(&bounds.low, &top))
}

/// The integer of a range that lies at `t` on its axis, snapped to its steps and moved into the
/// range.
pub fn int_off_axis<R: Reals>(
    low: i64,
    high: i64,
    log: bool,
    step: i64,
    t: Scalar,
    reals: &R,
) -> (v: i64)
    requires
        low <= high,
        step >= 1,
    ensures
        low <= v <= high,
        is_int_off_axis(reals, low, high, log, step, t, v),
{
    let plain = if log {
        reals.exp(t)
    } else {
        t
    };
    let k = reals.steps(plain, low, step);
    let v = snap_int(low, high, step, k);
    proof {
        assert(is_plain(reals, t, log, plain));
        assert(reals::is_steps(reals, plain, low, step, k));
        assert(v == evolution::snapped(low as int, high as int, step as int, k as int));
    }
    v
}

/// An axis is plain, or it is the logarithm there and the exponential back.
pub proof fn law_axes_are_plain_or_logarithms<R: Reals>(reals: &R, x: Scalar, t: Scalar)
    ensures
        lies_at(reals, x, false, t) <==> t == x,
        lies_at(reals, x, true, t) <==> reals::is_ln(reals, x, t),
        is_plain(reals, t, false, x) <==> x == t,
        is_plain(reals, t, true, x) <==> reals::is_exp(reals, t, x),
{
}

/// What comes off the axis of a plain range without steps is left as it is inside the range, and
/// moved to the end that it passed otherwise.
pub proof fn law_plain_axes_give_back_what_lies_inside<R: Reals>(
    reals: &R,
    bounds: Bounds,
    t: Scalar,
    x: Scalar,
)
    requires
        is_off_axis(reals, bounds, false, None, t, x),
        bounds.low.finite(),
        bounds.high.finite(),
        bounds.low.key() <= bounds.high.key(),
        !t.nan(),
    ensures
        bounds.low.key() <= t.key() <= bounds.high.key() ==> x == t,
        t.key() < bounds.low.key() ==> x == bounds.low,
        bounds.high.key() < t.key() ==> x == bounds.high,
{
}

/// What comes off the axis of a log-scaled range is the exponential, moved into the range.
pub proof fn law_log_axes_give_back_the_exponential<R: Reals>(
    reals: &R,
    bounds: Bounds,
    t: Scalar,
    x: Scalar,
)
    requires
        is_off_axis(reals, bounds, true, None, t, x),
        bounds.low.finite(),
        bounds.high.finite(),
        bounds.low.key() <= bounds.high.key(),
    ensures
        exists|raw: Scalar| #[trigger]
            reals::is_exp(reals, t, raw) && (!raw.nan() ==> (bounds.low.key() <= raw.key()
                <= bounds.high.key() ==> x == raw) && (raw.key() < bounds.low.key() ==> x
                == bounds.low) && (bounds.high.key() < raw.key() ==> x == bounds.high)),
{
    let (plain, snapped, top) = choose|plain: Scalar, snapped: Scalar, top: Scalar| #[trigger]
        is_plain(reals, t, true, plain) && #[trigger] is_stepped(
            reals,
            plain,
            bounds.low,
            None,
            snapped,
        ) && #[trigger] is_top(reals, bounds, None, top) && x == bounds.settled(
            snapped.clamped(bounds.low, top),
        );
    assert(reals::is_exp(reals, t, plain));
}

/// What comes off the axis of an integer range lies a whole number of steps above its lower end, and
/// is that many steps up as the place on the axis is nearest to, if the range reaches so far.
pub proof fn law_int_axes_give_back_the_nearest_step<R: Reals>(
    reals: &R,
    low: i64,
    high: i64,
    log: bool,
    step: i64,
    t: Scalar,
    v: i64,
)
    requires
        is_int_off_axis(reals, low, high, log, step, t, v),
        low <= high,
        step >= 1,
    ensures
        low <= v <= high,
        (v - low) % (step as int) == 0,
        exists|plain: Scalar, k: i64|
            (if log {
                reals::is_exp(reals, t, plain)
            } else {
                plain == t
            }) && #[trigger] reals::is_steps(reals, plain, low, step, k) && (low <= low + k * step
                <= high ==> v == low + k * step) && (k <= 0 ==> v == low) && (low + k * step > high
                ==> v + step > high),
{
    let (plain, k) = choose|plain: Scalar, k: i64| #[trigger]
        is_plain(reals, t, log, plain) && #[trigger] reals::is_steps(reals, plain, low, step, k)
            && v == evolution::snapped(low as int, high as int, step as int, k as int);
    let (l, h, s, n) = (low as int, high as int, step as int, k as int);
    evolution::law_snapping_stays_on_the_steps(l, h, s, n);
    vstd::arithmetic::div_mod::lemma_fundamental_div_mod(h - l, s);
    vstd::arithmetic::div_mod::lemma_mod_bound(h - l, s);
    let q = (h - l) / s;
    assert(s * q == q * s) by (nonlinear_arith);
    assert(n <= 0 ==> n * s <= 0) by (nonlinear_arith)
        requires
            s >= 1,
    ;
    assert(n * s <= h - l ==> n <= q) by {
        if n * s <= h - l && n > q {
            assert(n * s >= q * s + s) by (nonlinear_arith)
                requires
                    n >= q + 1,
                    s >= 1,
            ;
        }
    }
    assert(n <= q ==> n * s <= q * s) by (nonlinear_arith)
        requires
            s >= 1,
    ;
    assert(reals::is_steps(reals, plain, low, step, k));
}

} // verus!
