//! Parameter distributions: the value spaces a single hyper-parameter can take.
//!
//! Distributions are the leaves of a search space. They cover uniform and log-scaled floats and
//! integers, stepped values, categorical and boolean choices.

use vstd::prelude::*;
use crate::error::{Error, Reason};
use crate::param::ParamValue;
use crate::reals::Reals;
use crate::rng::TrialRng;
use crate::scalar::Scalar;
use crate::text::same_text;
use crate::axis::float_top;
#[allow(unused_imports)]
use crate::axis;
#[allow(unused_imports)]
use crate::evolution;
#[allow(unused_imports)]
use crate::models;
use crate::param::ParamModel;
#[allow(unused_imports)]
use crate::reals;

verus! {

/// The two ends of a float range, and the ends widened by the rounding tolerance that
/// membership allows: a value counts as inside when it lies between `floor` and `ceiling`.
#[derive(Debug, Clone, Copy, PartialEq, Eq, Structural)]
pub struct Bounds {
    /// Inclusive lower bound.
    pub low: Scalar,
    /// Inclusive upper bound.
    pub high: Scalar,
    /// The smallest value that membership admits: `low` less one billionth.
    pub floor: Scalar,
    /// The largest value that membership admits: `high` plus one billionth.
    pub ceiling: Scalar,
}

impl Bounds {
    /// Whether the widened ends are numbers and hold the range.
    pub open spec fn sound(self) -> bool {
        &&& !self.floor.nan()
        &&& !self.ceiling.nan()
        &&& self.floor.key() <= self.low.key()
        &&& self.high.key() <= self.ceiling.key()
    }

    /// Whether membership admits `x`.
    pub open spec fn admits(self, x: Scalar) -> bool {
        &&& !self.floor.nan()
        &&& !self.ceiling.nan()
        &&& !x.nan()
        &&& self.floor.key() <= x.key() <= self.ceiling.key()
    }

    /// Where an answer of floating-point arithmetic ends up: at itself if it lies in the range, at
    /// the end of the range that it passed otherwise, and at `low` if it is not a number.
    pub open spec fn settled(self, x: Scalar) -> Scalar {
        if x.nan() {
            self.low
        } else {
            x.clamped(self.low, self.high)
        }
    }

    /// Whether `x` is a number of the range itself.
    pub open spec fn holds(self, x: Scalar) -> bool {
        !x.nan() && self.low.key() <= x.key() <= self.high.key()
    }

    /// Takes an answer of floating-point arithmetic into the range.
    pub fn settle(&self, x: Scalar) -> (r: Scalar)
        ensures
            r == self.settled(x),
    {
        if x.is_nan() {
            self.low
        } else {
            x.clamp(&self.low, &self.high)
        }
    }
}

/// The spacing of floats at one, below which a range is taken for a single point.
pub const SPACING: u64 = 0x3cb0_0000_0000_0000;

/// Whether a range of this width is taken for a single point: the width is below the spacing of
/// floats at one, whatever its sign.
pub fn is_point(width: Scalar) -> (r: bool)
    ensures
        r == (!width.nan() && -SPACING < width.key() < SPACING),
{
    let spacing = Scalar::from_bits(SPACING);
    width.lt(&spacing) && spacing.neg().lt(&width)
}

/// Whether `raw` is drawn from a float range at `rng`, with `after` the position behind it:
/// uniformly, on its axis; a range that is a single point is not drawn from.
pub open spec fn is_raw_draw<R: Reals>(
    reals: &R,
    bounds: Bounds,
    log: bool,
    rng: TrialRng,
    raw: Scalar,
    after: TrialRng,
) -> bool {
    if log {
        exists|lo: Scalar, hi: Scalar, t: Scalar|
            axis::lies_at(reals, bounds.low, true, lo) && axis::lies_at(
                reals,
                bounds.high,
                true,
                hi,
            ) && #[trigger] reals::is_uniform(reals, lo, hi, rng, t, after) && reals::is_exp(
                reals,
                t,
                raw,
            )
    } else {
        exists|width: Scalar| #[trigger]
            reals::is_difference(reals, bounds.high, bounds.low, width) && if !width.nan()
                && -SPACING < width.key() < SPACING {
                raw == bounds.low && after == rng
            } else {
                reals::is_uniform(reals, bounds.low, bounds.high, rng, raw, after)
            }
    }
}

/// Whether `x` is a draw from a float range moved to a whole step, if there are steps, and no
/// further than the last step of the range.
pub open spec fn is_step_of<R: Reals>(
    reals: &R,
    bounds: Bounds,
    step: Option<Scalar>,
    raw: Scalar,
    x: Scalar,
) -> bool {
    match step {
        Some(s) => exists|snapped: Scalar, top: Scalar| #[trigger]
            reals::is_snap(reals, raw, bounds.low, s, snapped) && #[trigger] axis::is_top(
                reals,
                bounds,
                step,
                top,
            ) && x == snapped.clamped(bounds.low, top),
        None => x == raw,
    }
}

/// Whether `raw` is drawn from a log-scaled integer range at `rng`, with `after` the position
/// behind it.
pub open spec fn is_raw_int<R: Reals>(
    reals: &R,
    low: i64,
    high: i64,
    rng: TrialRng,
    raw: i64,
    after: TrialRng,
) -> bool {
    exists|lo: Scalar, hi: Scalar, t: Scalar, x: Scalar|
        axis::int_lies_at(reals, low, true, lo) && axis::int_lies_at(reals, high, true, hi)
            && #[trigger] reals::is_uniform(reals, lo, hi, rng, t, after)
            && #[trigger] reals::is_exp(reals, t, x) && reals::is_round(reals, x, raw)
}

/// The integer at whole steps of `step` from `low` that is nearest to `x`, taken into
/// `[low, high]`; the higher one of two.
pub open spec fn nearest_step(low: int, high: int, step: int, x: int) -> int {
    let inside = if x < low {
        low
    } else if x > high {
        high
    } else {
        x
    };
    evolution::snapped(low, high, step, (inside - low + step / 2) / step)
}

/// Steps of one leave an integer of the range where it is.
pub proof fn law_single_steps_hold_every_integer(low: int, high: int, x: int)
    requires
        low <= x <= high,
    ensures
        nearest_step(low, high, 1, x) == x,
{
}

/// The integer at whole steps from `low` that is nearest to `x`, taken into `[low, high]`.
fn to_step(low: i64, high: i64, step: i64, x: i64) -> (v: i64)
    requires
        low <= high,
        step >= 1,
    ensures
        v == nearest_step(low as int, high as int, step as int, x as int),
        low <= v <= high,
{
    let inside = if x < low {
        low
    } else if x > high {
        high
    } else {
        x
    };
    let (l, h, d) = (low as i128, high as i128, step as i128);
    let off: i128 = inside as i128 - l;
    let k: i128 = (off + d / 2) / d;
    let last: i128 = (h - l) / d;
    proof {
        let (a, b, c) = (off + d / 2, h - l, d as int);
        assert(0 <= (a / c) * c <= a) by (nonlinear_arith)
            requires
                0 <= a,
                c >= 1,
        ;
        assert(0 <= (b / c) * c <= b) by (nonlinear_arith)
            requires
                0 <= b,
                c >= 1,
        ;
    }
    let (at, top): (i128, i128) = (l + k * d, l + last * d);
    if at > top {
        top as i64
    } else {
        at as i64
    }
}

/// Whether `r` is drawn from a float range at `rng`, with `after` the position behind it: a raw
/// draw, moved to its step and taken into the range.
pub open spec fn is_float_draw<R: Reals>(
    reals: &R,
    bounds: Bounds,
    log: bool,
    step: Option<Scalar>,
    rng: TrialRng,
    r: Scalar,
    after: TrialRng,
) -> bool {
    exists|raw: Scalar, x: Scalar| #[trigger]
        is_raw_draw(reals, bounds, log, rng, raw, after) && #[trigger] is_step_of(
            reals,
            bounds,
            step,
            raw,
            x,
        ) && r == bounds.settled(x)
}

/// Whether `v` is drawn from a distribution at `rng`, with `after` the position behind it.
pub open spec fn is_draw<R: Reals>(
    reals: &R,
    dist: DistModel,
    rng: TrialRng,
    v: ParamModel,
    after: TrialRng,
) -> bool {
    match dist {
        DistModel::Float { bounds, log, step } => v matches ParamModel::Float(x) && is_float_draw(
            reals,
            bounds,
            log,
            step,
            rng,
            x,
            after,
        ),
        DistModel::Int { low, high, log: true, step } => exists|raw: i64| #[trigger]
            is_raw_int(reals, low, high, rng, raw, after) && v == ParamModel::Int(
                nearest_step(low as int, high as int, step as int, raw as int) as i64,
            ),
        _ => v == dist.drawn(rng) && after == dist.past_draw(rng),
    }
}

/// Whether `x` is point `i` of `n` on the axis of a float range, taken into the range if the
/// range is valid.
pub open spec fn is_grid_point<R: Reals>(
    reals: &R,
    bounds: Bounds,
    log: bool,
    i: usize,
    n: usize,
    x: Scalar,
) -> bool {
    exists|lo: Scalar, hi: Scalar, t: Scalar, at: Scalar, raw: Scalar|
        axis::lies_at(reals, bounds.low, log, lo) && axis::lies_at(reals, bounds.high, log, hi)
            && #[trigger] reals::is_ratio(reals, i, (n - 1) as usize, t)
            && #[trigger] reals::is_mix(reals, lo, hi, t, at) && #[trigger] axis::is_plain(
            reals,
            at,
            log,
            raw,
        ) && x == (DistModel::Float { bounds, log, step: None }).placed(bounds, raw)
}

/// Whether `grid` lays out a distribution, with `samples` points over a float range without
/// steps: the lower end alone if that is at most one, and every step of a stepped float range.
pub open spec fn is_grid<R: Reals>(
    reals: &R,
    dist: DistModel,
    samples: usize,
    grid: Seq<ParamModel>,
) -> bool {
    match dist {
        DistModel::Float { bounds, log, step: None } => if samples <= 1 {
            grid == seq![ParamModel::Float(bounds.low)]
        } else {
            &&& grid.len() == samples
            &&& forall|i: int|
                0 <= i < grid.len() ==> (#[trigger] grid[i] matches ParamModel::Float(x)
                    && is_grid_point(reals, bounds, log, i as usize, samples, x))
        },
        DistModel::Float { bounds, step: Some(step), .. } => exists|points: Seq<Scalar>| #[trigger]
            reals::are_grid_steps(reals, bounds.low, bounds.high, step, points) && grid
                == points.map_values(|x: Scalar| ParamModel::Float(dist.placed(bounds, x))),
        _ => grid == dist.grid(),
    }
}

/// Whatever floating-point arithmetic answers, a range ends up with one of its numbers, which is a
/// member if the widened ends hold the range, and a number of the range is left as it is.
pub proof fn law_settled_is_member(b: Bounds, x: Scalar)
    requires
        b.low.finite(),
        b.high.finite(),
        b.low.key() <= b.high.key(),
    ensures
        b.holds(b.settled(x)),
        b.sound() ==> b.admits(b.settled(x)),
        b.holds(x) ==> b.settled(x) == x,
{
}

/// A value space for a single parameter.
#[derive(Debug)]
#[allow(inconsistent_fields)]
pub enum Distribution {
    /// A floating-point range, optionally log-scaled or stepped.
    Float {
        /// The ends of the range.
        bounds: Bounds,
        /// Sample in log space (both bounds must be strictly positive).
        log: bool,
        /// Optional discretization step (in linear space).
        step: Option<Scalar>,
    },
    /// An integer range `[low, high]` inclusive, optionally log-scaled or stepped.
    Int {
        /// Inclusive lower bound.
        low: i64,
        /// Inclusive upper bound.
        high: i64,
        /// Sample in log space (both bounds must be strictly positive).
        log: bool,
        /// Step between successive candidate values (at least one).
        step: i64,
    },
    /// A finite set of string choices.
    Categorical {
        /// The candidate values; must be non-empty.
        choices: Vec<String>,
    },
    /// A boolean.
    Bool,
}

/// What a [`Distribution`] stands for in contracts.
#[allow(inconsistent_fields)]
pub enum DistModel {
    /// A floating-point range.
    Float {
        /// The ends of the range.
        bounds: Bounds,
        /// Whether the range is log-scaled.
        log: bool,
        /// The discretization step.
        step: Option<Scalar>,
    },
    /// An integer range.
    Int {
        /// Inclusive lower bound.
        low: i64,
        /// Inclusive upper bound.
        high: i64,
        /// Whether the range is log-scaled.
        log: bool,
        /// The discretization step.
        step: i64,
    },
    /// A finite set of choices.
    Categorical {
        /// The candidate values.
        choices: Seq<Seq<char>>,
    },
    /// A boolean.
    Bool,
}

impl View for Distribution {
    type V = DistModel;

    open spec fn view(&self) -> DistModel {
        match self {
            Distribution::Float { bounds, log, step } => DistModel::Float {
                bounds: *bounds,
                log: *log,
                step: *step,
            },
            Distribution::Int { low, high, log, step } => DistModel::Int {
                low: *low,
                high: *high,
                log: *log,
                step: *step,
            },
            Distribution::Categorical { choices } => DistModel::Categorical {
                choices: models::of(choices@),
            },
            Distribution::Bool => DistModel::Bool,
        }
    }
}

/// What is wrong with a distribution.
pub enum Defect {
    /// The bounds, the step or the scale are wrong.
    Bounds(Reason),
    /// A categorical distribution has no choices.
    NoChoices,
}

/// The number of grid points of an integer range.
pub open spec fn int_count(low: int, high: int, step: int) -> nat {
    if low > high {
        0
    } else {
        ((high - low) / step + 1) as nat
    }
}

impl DistModel {
    /// The first thing that is wrong with the distribution, in the order in which validation
    /// looks.
    pub open spec fn defect(self) -> Option<Defect> {
        match self {
            DistModel::Float { bounds, log, step } => {
                if !(bounds.low.finite() && bounds.high.finite()) {
                    Some(Defect::Bounds(Reason::BoundsNotFinite))
                } else if bounds.high.less(bounds.low) {
                    Some(
                        Defect::Bounds(
                            Reason::FloatBoundsCrossed { low: bounds.low, high: bounds.high },
                        ),
                    )
                } else if log && bounds.low.key() <= 0 {
                    Some(Defect::Bounds(Reason::LogNeedsPositiveLow))
                } else if step is Some && !step->0.nan() && step->0.key() <= 0 {
                    Some(Defect::Bounds(Reason::StepNotPositive))
                } else if step is Some && log {
                    Some(Defect::Bounds(Reason::SteppedAndLog))
                } else {
                    None
                }
            },
            DistModel::Int { low, high, log, step } => {
                if low > high {
                    Some(Defect::Bounds(Reason::IntBoundsCrossed { low, high }))
                } else if step < 1 {
                    Some(Defect::Bounds(Reason::StepBelowOne))
                } else if log && low <= 0 {
                    Some(Defect::Bounds(Reason::LogNeedsPositiveLow))
                } else {
                    None
                }
            },
            DistModel::Categorical { choices } => {
                if choices.len() == 0 {
                    Some(Defect::NoChoices)
                } else {
                    None
                }
            },
            DistModel::Bool => None,
        }
    }

    /// Whether `v` is a legal member of the distribution.
    pub open spec fn member(self, v: ParamModel) -> bool {
        match (self, v) {
            (DistModel::Float { bounds, .. }, ParamModel::Float(x)) => bounds.admits(x),
            (DistModel::Int { low, high, .. }, ParamModel::Int(x)) => low <= x <= high,
            (DistModel::Categorical { choices }, ParamModel::Categorical(s)) => choices.contains(s),
            (DistModel::Bool, ParamModel::Bool(_)) => true,
            _ => false,
        }
    }

    /// Whether `v` has the shape of a draw: a member, except that a float range whose widened
    /// ends do not hold it has any float for a draw.
    pub open spec fn fits(self, v: ParamModel) -> bool {
        match self {
            DistModel::Float { bounds, .. } => v is Float && (bounds.sound() ==> self.member(v)),
            _ => self.member(v),
        }
    }

    /// Whether the distribution can be drawn from: it has no defect, and the width of a uniform
    /// integer range is an integer too.
    pub open spec fn drawable(self) -> bool {
        &&& self.defect() is None
        &&& self matches DistModel::Int { low, high, log, .. } ==> log || high - low <= i64::MAX
    }

    /// Whether laying out the distribution as a grid comes to an end: the steps of an integer
    /// range lead upwards, and those of a float range do so between ends that are finite.
    pub open spec fn gridable(self) -> bool {
        match self {
            DistModel::Float { bounds, step: Some(s), .. } => bounds.low.finite()
                && bounds.high.finite() && (s.nan() || s.key() > 0),
            DistModel::Int { step, .. } => step >= 1,
            _ => true,
        }
    }

    /// Where an answer of floating-point arithmetic lies on a float grid: in the range if the
    /// distribution is valid, and where it is otherwise.
    pub open spec fn placed(self, bounds: Bounds, x: Scalar) -> Scalar {
        if self.defect() is None {
            bounds.settled(x)
        } else {
            x
        }
    }

    /// Whether drawing from the distribution needs floating-point arithmetic.
    pub open spec fn continuous(self) -> bool {
        match self {
            DistModel::Float { .. } => true,
            DistModel::Int { log, .. } => log,
            _ => false,
        }
    }

    /// The value drawn from a distribution that is not continuous.
    pub open spec fn drawn(self, rng: TrialRng) -> ParamModel {
        match self {
            DistModel::Int { low, high, step, .. } => ParamModel::Int(
                (low + rng.pick(int_count(low as int, high as int, step as int) as u64)
                    * step) as i64,
            ),
            DistModel::Categorical { choices } => ParamModel::Categorical(
                choices[rng.pick(choices.len() as u64) as int],
            ),
            _ => ParamModel::Bool(rng.flip()),
        }
    }

    /// The position behind a draw from a distribution that is not continuous.
    pub open spec fn past_draw(self, rng: TrialRng) -> TrialRng {
        match self {
            DistModel::Int { low, high, step, .. } => rng.past_pick(
                int_count(low as int, high as int, step as int) as u64,
            ),
            DistModel::Categorical { choices } => rng.past_pick(choices.len() as u64),
            _ => rng.past_flip(),
        }
    }

    /// The grid of a distribution that is not a float range.
    pub open spec fn grid(self) -> Seq<ParamModel> {
        match self {
            DistModel::Int { low, high, step, .. } => Seq::new(
                int_count(low as int, high as int, step as int),
                |k: int| ParamModel::Int((low + k * step) as i64),
            ),
            DistModel::Categorical { choices } => choices.map_values(
                |c: Seq<char>| ParamModel::Categorical(c),
            ),
            _ => seq![ParamModel::Bool(false), ParamModel::Bool(true)],
        }
    }

    /// The label of each kind of distribution.
    pub open spec fn label(self) -> Seq<char> {
        match self {
            DistModel::Float { .. } => "float"@,
            DistModel::Int { .. } => "int"@,
            DistModel::Categorical { .. } => "categorical"@,
            DistModel::Bool => "bool"@,
        }
    }
}

/// `e` reports the defect `d` of the parameter `name`.
pub open spec fn reports_defect(e: Error, name: Seq<char>, d: Defect) -> bool {
    match d {
        Defect::Bounds(why) => e matches Error::InvalidDistribution { name: n, reason } && n@
            == name && reason == why,
        Defect::NoChoices => e matches Error::EmptyCategorical(n) && n@ == name,
    }
}

/// The last grid point of an integer range does not pass its upper bound, and the next one would.
proof fn int_grid_bounds(low: int, high: int, step: int, k: int)
    requires
        low <= high,
        step >= 1,
        0 <= k < int_count(low, high, step),
    ensures
        low <= low + k * step <= high,
{
    assert(0 <= k * step <= high - low) by (nonlinear_arith)
        requires
            low <= high,
            step >= 1,
            0 <= k <= (high - low) / step,
    ;
}

/// A draw that needs no floating-point arithmetic lands inside its distribution.
pub proof fn law_draw_is_member(d: DistModel, rng: TrialRng)
    requires
        d.drawable(),
        !d.continuous(),
        d matches DistModel::Int { low, high, step, .. } ==> rng.pick(
            int_count(low as int, high as int, step as int) as u64,
        ) < int_count(low as int, high as int, step as int),
        d matches DistModel::Categorical { choices } ==> rng.pick(choices.len() as u64)
            < choices.len(),
    ensures
        d.member(d.drawn(rng)),
{
    match d {
        DistModel::Int { low, high, log, step } => {
            int_grid_bounds(
                low as int,
                high as int,
                step as int,
                rng.pick(int_count(low as int, high as int, step as int) as u64) as int,
            );
        },
        _ => {},
    }
}

/// The grid of an integer range goes up, holds exactly the numbers of the range at whole steps from
/// its lower end, and is empty if its ends are crossed, log-scaled or not.
pub proof fn law_int_grid_holds_every_step(low: i64, high: i64, log: bool, step: i64)
    requires
        step >= 1,
    ensures
        ({
            let grid = (DistModel::Int { low, high, log, step }).grid();
            &&& low > high ==> grid.len() == 0
            &&& forall|i: int, j: int|
                0 <= i < j < grid.len() ==> (#[trigger] grid[i])->Int_0 < (
                #[trigger] grid[j])->Int_0
            &&& forall|v: i64| #[trigger]
                grid.contains(ParamModel::Int(v)) <==> low <= v <= high && (v - low) % (
                step as int) == 0
        }),
{
    let grid = (DistModel::Int { low, high, log, step }).grid();
    let (l, h, d) = (low as int, high as int, step as int);
    assert forall|k: int| 0 <= k < grid.len() implies #[trigger] grid[k] == ParamModel::Int(
        (l + k * d) as i64,
    ) && l <= l + k * d <= h by {
        int_grid_bounds(l, h, d, k);
    }
    assert forall|i: int, j: int| 0 <= i < j < grid.len() implies (#[trigger] grid[i])->Int_0 < (
    #[trigger] grid[j])->Int_0 by {
        assert(i * d < j * d) by (nonlinear_arith)
            requires
                i < j,
                d >= 1,
        ;
    }
    assert forall|v: i64| #[trigger] grid.contains(ParamModel::Int(v)) <==> low <= v <= high && (v
        - low) % (step as int) == 0 by {
        if grid.contains(ParamModel::Int(v)) {
            let k = grid.index_of(ParamModel::Int(v));
            assert(v - l == k * d);
            vstd::arithmetic::div_mod::lemma_mod_multiples_basic(k, d);
        }
        if low <= v <= high && (v - low) % (step as int) == 0 {
            let k = (v - l) / d;
            vstd::arithmetic::div_mod::lemma_fundamental_div_mod(v - l, d);
            assert(v - l == k * d) by (nonlinear_arith)
                requires
                    v - l == d * k + 0,
            ;
            vstd::arithmetic::div_mod::lemma_div_is_ordered(v - l, h - l, d);
            assert(0 <= k) by (nonlinear_arith)
                requires
                    k == (v - l) / d,
                    v - l >= 0,
                    d >= 1,
            ;
            assert(grid[k] == ParamModel::Int(v));
        }
    }
}

/// Every grid point of a distribution is one of its members.
pub proof fn law_grid_is_inside(d: DistModel, i: int)
    requires
        d.defect() is None,
        d !is Float,
        0 <= i < d.grid().len(),
    ensures
        d.member(d.grid()[i]),
{
    match d {
        DistModel::Int { low, high, log, step } => {
            int_grid_bounds(low as int, high as int, step as int, i);
        },
        _ => {},
    }
}

/// The grid holds every member of an unstepped integer range, of a categorical and of a boolean.
pub proof fn law_grid_is_exhaustive(d: DistModel, v: ParamModel)
    requires
        d.defect() is None,
        d.member(v),
        d !is Float,
        d matches DistModel::Int { step, .. } ==> step == 1,
    ensures
        d.grid().contains(v),
{
    match (d, v) {
        (DistModel::Int { low, high, log, step }, ParamModel::Int(x)) => {
            let k = x - low;
            assert(low + k * step == x) by (nonlinear_arith)
                requires
                    step == 1,
                    k == x - low,
            ;
            assert(d.grid()[k] == v);
        },
        (DistModel::Categorical { choices }, ParamModel::Categorical(s)) => {
            let k = choices.index_of(s);
            assert(d.grid()[k] == v);
        },
        (_, ParamModel::Bool(b)) => {
            assert(d.grid()[0] == ParamModel::Bool(false));
            assert(d.grid()[1] == ParamModel::Bool(true));
        },
        _ => {},
    }
}

impl Distribution {
    /// Uniform float between the bounds.
    pub fn float(bounds: Bounds) -> (d: Self)
        ensures
            d@ == (DistModel::Float { bounds, log: false, step: None }),
    {
        Distribution::Float { bounds, log: false, step: None }
    }

    /// Log-uniform float between the bounds (both must be positive).
    pub fn log_float(bounds: Bounds) -> (d: Self)
        ensures
            d@ == (DistModel::Float { bounds, log: true, step: None }),
    {
        Distribution::Float { bounds, log: true, step: None }
    }

    /// Stepped float: candidate values are `low, low+step, low+2*step, ...`.
    pub fn stepped_float(bounds: Bounds, step: Scalar) -> (d: Self)
        ensures
            d@ == (DistModel::Float { bounds, log: false, step: Some(step) }),
    {
        Distribution::Float { bounds, log: false, step: Some(step) }
    }

    /// Uniform integer in `[low, high]` inclusive.
    pub fn integer(low: i64, high: i64) -> (d: Self)
        ensures
            d@ == (DistModel::Int { low, high, log: false, step: 1 }),
    {
        Distribution::Int { low, high, log: false, step: 1 }
    }

    /// Log-uniform integer in `[low, high]` inclusive.
    pub fn log_int(low: i64, high: i64) -> (d: Self)
        ensures
            d@ == (DistModel::Int { low, high, log: true, step: 1 }),
    {
        Distribution::Int { low, high, log: true, step: 1 }
    }

    /// Categorical over the given string choices.
    pub fn categorical(choices: Vec<String>) -> (d: Self)
        ensures
            d@ == (DistModel::Categorical { choices: models::of(choices@) }),
    {
        Distribution::Categorical { choices }
    }

    /// Boolean distribution.
    pub fn boolean() -> (d: Self)
        ensures
            d@ == DistModel::Bool,
    {
        Distribution::Bool
    }

    /// A short, stable label used in error messages and mismatch checks.
    pub fn kind(&self) -> (r: &'static str)
        ensures
            r@ == self@.label(),
    {
        match self {
            Distribution::Float { .. } => "float",
            Distribution::Int { .. } => "int",
            Distribution::Categorical { .. } => "categorical",
            Distribution::Bool => "bool",
        }
    }

    /// Validate the distribution's bounds. Called when registering a parameter so that
    /// impossible spaces fail loudly at definition time.
    pub fn validate(&self, name: &str) -> (r: Result<(), Error>)
        ensures
            match (r, self@.defect()) {
                (Ok(_), None) => true,
                (Err(e), Some(d)) => reports_defect(e, name@, d),
                _ => false,
            },
    {
        match self {
            Distribution::Float { bounds, log, step } => {
                if !(bounds.low.is_finite() && bounds.high.is_finite()) {
                    return Err(invalid(name, Reason::BoundsNotFinite));
                }
                if bounds.high.lt(&bounds.low) {
                    return Err(
                        invalid(
                            name,
                            Reason::FloatBoundsCrossed { low: bounds.low, high: bounds.high },
                        ),
                    );
                }
                if *log && bounds.low.le(&Scalar::zero()) {
                    return Err(invalid(name, Reason::LogNeedsPositiveLow));
                }
                if let Some(s) = step {
                    if s.le(&Scalar::zero()) {
                        return Err(invalid(name, Reason::StepNotPositive));
                    }
                    if *log {
                        return Err(invalid(name, Reason::SteppedAndLog));
                    }
                }
                Ok(())
            },
            Distribution::Int { low, high, log, step } => {
                if *low > *high {
                    return Err(invalid(name, Reason::IntBoundsCrossed { low: *low, high: *high }));
                }
                if *step < 1 {
                    return Err(invalid(name, Reason::StepBelowOne));
                }
                if *log && *low <= 0 {
                    return Err(invalid(name, Reason::LogNeedsPositiveLow));
                }
                Ok(())
            },
            Distribution::Categorical { choices } => {
                if choices.len() == 0 {
                    return Err(Error::EmptyCategorical(name.to_owned()));
                }
                Ok(())
            },
            Distribution::Bool => Ok(()),
        }
    }

    /// Whether the distribution can be drawn from: it is valid, and the width of a uniform
    /// integer range does not overflow.
    pub fn is_drawable(&self) -> (r: bool)
        ensures
            r == self@.drawable(),
    {
        if self.validate("").is_err() {
            return false;
        }
        match self {
            Distribution::Int { low, high, log, .. } => *log || (*high as i128 - *low as i128)
                <= i64::MAX as i128,
            _ => true,
        }
    }

    /// Draw a single value from this distribution. Float ranges and log-scaled integers ask
    /// `reals` for the draw and take it into the range; everything else is decided here.
    pub fn sample<C: Reals>(&self, rng: &mut TrialRng, reals: &C) -> (v: ParamValue)
        requires
            self@.drawable(),
        ensures
            self@.fits(v@),
            self@ matches DistModel::Float { bounds, .. } ==> (v@ matches ParamModel::Float(x)
                && bounds.holds(x)),
            is_draw(reals, self@, *old(rng), v@, *final(rng)),
    {
        match self {
            Distribution::Float { bounds, log, step } => {
                let raw = if *log {
                    let (lo, hi) = (reals.ln(bounds.low), reals.ln(bounds.high));
                    let (t, after) = reals.uniform(lo, hi, *rng);
                    *rng = after;
                    proof {
                        assert(reals::is_uniform(reals, lo, hi, *old(rng), t, after));
                    }
                    reals.exp(t)
                } else {
                    let width = reals.difference(bounds.high, bounds.low);
                    proof {
                        assert(reals::is_difference(reals, bounds.high, bounds.low, width));
                    }
                    if is_point(width) {
                        bounds.low
                    } else {
                        let (x, after) = reals.uniform(bounds.low, bounds.high, *rng);
                        *rng = after;
                        x
                    }
                };
                let x = match step {
                    Some(s) => {
                        let snapped = reals.snap(raw, bounds.low, *s);
                        proof {
                            assert(reals::is_snap(reals, raw, bounds.low, *s, snapped));
                        }
                        let top = float_top(bounds, *step, reals);
                        snapped.clamp(&bounds.low, &top)
                    },
                    None => raw,
                };
                proof {
                    assert(is_raw_draw(reals, *bounds, *log, *old(rng), raw, *rng));
                    assert(is_step_of(reals, *bounds, *step, raw, x));
                    assert(is_float_draw(
                        reals,
                        *bounds,
                        *log,
                        *step,
                        *old(rng),
                        bounds.settled(x),
                        *rng,
                    ));
                }
                ParamValue::Float(bounds.settle(x))
            },
            Distribution::Int { low, high, log, step } => {
                if *log {
                    let (from, to) = (reals.of_int(*low), reals.of_int(*high));
                    let (lo, hi) = (reals.ln(from), reals.ln(to));
                    let (t, after) = reals.uniform(lo, hi, *rng);
                    *rng = after;
                    let x = reals.exp(t);
                    let raw = reals.round(x);
                    proof {
                        assert(reals::is_of_int(reals, *low, from));
                        assert(reals::is_of_int(reals, *high, to));
                        assert(axis::int_lies_at(reals, *low, true, lo));
                        assert(axis::int_lies_at(reals, *high, true, hi));
                        assert(reals::is_uniform(reals, lo, hi, *old(rng), t, after));
                        assert(reals::is_exp(reals, t, x));
                        assert(is_raw_int(reals, *low, *high, *old(rng), raw, after));
                    }
                    ParamValue::Int(to_step(*low, *high, *step, raw))
                } else {
                    let spread: i64 = (*high - *low) / *step;
                    proof {
                        let (l, h, d) = (*low as int, *high as int, *step as int);
                        assert(0 <= (h - l) / d <= h - l) by (nonlinear_arith)
                            requires
                                l <= h,
                                d >= 1,
                        ;
                    }
                    let k = rng.below(spread as u64 + 1);
                    proof {
                        int_grid_bounds(*low as int, *high as int, *step as int, k as int);
                        assert(0 <= k * *step) by (nonlinear_arith)
                            requires
                                k >= 0,
                                *step >= 1,
                        ;
                    }
                    ParamValue::Int(*low + (k as i64) * *step)
                }
            },
            Distribution::Categorical { choices } => {
                let i = rng.below(choices.len() as u64);
                let v = ParamValue::Categorical(choices[i as usize].clone());
                proof {
                    assert(models::of(choices@)[i as int] == choices@[i as int]@);
                }
                v
            },
            Distribution::Bool => ParamValue::Bool(rng.coin()),
        }
    }

    /// Enumerate the discrete grid of candidate values for this distribution. A float range has
    /// `float_samples` points (at least one, and the lower end alone if there is one), unless it
    /// is stepped; where they lie is the answer of `reals`. A range whose ends are crossed and a
    /// choice without candidates have an empty grid, except that a float range without steps is
    /// laid out from end to end whatever they are.
    pub fn grid_values<C: Reals>(&self, float_samples: usize, reals: &C) -> (r: Vec<
        ParamValue,
    >)
        requires
            self@.gridable(),
        ensures
            is_grid(reals, self@, float_samples, models::of(r@)),
            self@.defect() is None ==> forall|i: int|
                0 <= i < r@.len() ==> self@.fits(#[trigger] r@[i]@),
    {
        let valid = self.validate("").is_ok();
        match self {
            Distribution::Float { bounds, log, step: None } => {
                let mut out: Vec<ParamValue> = Vec::new();
                if float_samples <= 1 {
                    out.push(ParamValue::Float(bounds.low));
                    proof {
                        assert(models::of(out@) =~= seq![ParamModel::Float(bounds.low)]);
                    }
                    return out;
                }
                let mut i: usize = 0;
                while i < float_samples
                    invariant
                        i <= float_samples,
                        float_samples > 1,
                        out@.len() == i,
                        valid == (self@.defect() is None),
                        self@ == (DistModel::Float { bounds: *bounds, log: *log, step: None }),
                        valid ==> forall|k: int|
                            0 <= k < out@.len() ==> self@.fits(#[trigger] out@[k]@),
                        forall|k: int|
                            0 <= k < out@.len() ==> (#[trigger] out@[k]@ matches ParamModel::Float(
                                x,
                            ) && is_grid_point(
                                reals,
                                *bounds,
                                *log,
                                k as usize,
                                float_samples,
                                x,
                            )),
                    decreases float_samples - i,
                {
                    let t = reals.ratio(i, float_samples - 1);
                    proof {
                        assert(reals::is_ratio(reals, i, (float_samples - 1) as usize, t));
                    }
                    let x = if *log {
                        let (lo, hi) = (reals.ln(bounds.low), reals.ln(bounds.high));
                        let at = reals.mix(lo, hi, t);
                        let x = reals.exp(at);
                        proof {
                            assert(reals::is_mix(reals, lo, hi, t, at));
                            assert(axis::is_plain(reals, at, true, x));
                        }
                        x
                    } else {
                        let x = reals.mix(bounds.low, bounds.high, t);
                        proof {
                            assert(reals::is_mix(reals, bounds.low, bounds.high, t, x));
                            assert(axis::is_plain(reals, x, false, x));
                        }
                        x
                    };
                    proof {
                        assert(is_grid_point(
                            reals,
                            *bounds,
                            *log,
                            i,
                            float_samples,
                            self@.placed(*bounds, x),
                        ));
                    }
                    let x = if valid {
                        bounds.settle(x)
                    } else {
                        x
                    };
                    out.push(ParamValue::Float(x));
                    i += 1;
                }
                out
            },
            Distribution::Float { bounds, log, step: Some(step) } => {
                let points = reals.grid_steps(bounds.low, bounds.high, *step);
                proof {
                    assert(reals::are_grid_steps(
                        reals,
                        bounds.low,
                        bounds.high,
                        *step,
                        points@,
                    ));
                }
                let mut out: Vec<ParamValue> = Vec::new();
                let mut i: usize = 0;
                while i < points.len()
                    invariant
                        i <= points@.len(),
                        out@.len() == i,
                        forall|k: int|
                            0 <= k < i ==> #[trigger] out@[k]@ == ParamModel::Float(
                                self@.placed(*bounds, points@[k]),
                            ),
                        valid == (self@.defect() is None),
                        self@ == (DistModel::Float {
                            bounds: *bounds,
                            log: *log,
                            step: Some(*step),
                        }),
                        valid ==> forall|k: int|
                            0 <= k < out@.len() ==> self@.fits(#[trigger] out@[k]@),
                    decreases points@.len() - i,
                {
                    let x = if valid {
                        bounds.settle(points[i])
                    } else {
                        points[i]
                    };
                    out.push(ParamValue::Float(x));
                    i += 1;
                }
                proof {
                    assert(models::of(out@) =~= points@.map_values(
                        |x: Scalar| ParamModel::Float(self@.placed(*bounds, x)),
                    ));
                }
                out
            },
            Distribution::Int { low, high, log, step } => Self::int_grid(*low, *high, *step),
            Distribution::Categorical { choices } => {
                let mut out: Vec<ParamValue> = Vec::new();
                let mut i: usize = 0;
                while i < choices.len()
                    invariant
                        i <= choices@.len(),
                        out@.len() == i,
                        forall|k: int|
                            0 <= k < i ==> #[trigger] out@[k]@ == ParamModel::Categorical(
                                choices@[k]@,
                            ),
                    decreases choices@.len() - i,
                {
                    out.push(ParamValue::Categorical(choices[i].clone()));
                    i += 1;
                }
                proof {
                    assert(models::of(out@) =~= self@.grid());
                    assert forall|i: int| 0 <= i < out@.len() implies self@.fits(
                        #[trigger] out@[i]@,
                    ) by {
                        assert(models::of(choices@)[i] == choices@[i]@);
                    }
                }
                out
            },
            Distribution::Bool => {
                let out = vec![ParamValue::Bool(false), ParamValue::Bool(true)];
                proof {
                    assert(models::of(out@) =~= self@.grid());
                }
                out
            },
        }
    }

    fn int_grid(low: i64, high: i64, step: i64) -> (out: Vec<ParamValue>)
        requires
            step >= 1,
        ensures
            models::of(out@) =~= Seq::new(
                int_count(low as int, high as int, step as int),
                |k: int| ParamModel::Int((low + k * step) as i64),
            ),
            forall|i: int|
                0 <= i < out@.len() ==> (#[trigger] out@[i]@ matches ParamModel::Int(x) && low <= x
                    <= high),
    {
        let mut out: Vec<ParamValue> = Vec::new();
        let mut v: i128 = low as i128;
        let ghost n = int_count(low as int, high as int, step as int);
        proof {
            assert(0 * step == 0) by (nonlinear_arith);
        }
        while v <= high as i128
            invariant
                step >= 1,
                n == int_count(low as int, high as int, step as int),
                v == low + out@.len() * step,
                out@.len() > 0 ==> v <= high + step,
                out@.len() <= n,
                forall|k: int|
                    0 <= k < out@.len() ==> #[trigger] out@[k]@ == ParamModel::Int(
                        (low + k * step) as i64,
                    ) && low <= low + k * step <= high,
            decreases if v > high {
                0
            } else {
                high - v + 1
            },
        {
            proof {
                let k = out@.len() as int;
                assert(k <= (high - low) / (step as int)) by (nonlinear_arith)
                    requires
                        low + k * step <= high,
                        step >= 1,
                ;
                assert(0 <= k * step) by (nonlinear_arith)
                    requires
                        k >= 0,
                        step >= 1,
                ;
                assert((k + 1) * step == k * step + step) by (nonlinear_arith);
            }
            out.push(ParamValue::Int(v as i64));
            v += step as i128;
        }
        proof {
            let k = out@.len() as int;
            if low <= high {
                assert(k >= (high - low) / (step as int) + 1) by (nonlinear_arith)
                    requires
                        low + k * step > high,
                        step >= 1,
                        low <= high,
                ;
            }
        }
        out
    }

    /// Whether a concrete value is a legal member of this distribution.
    pub fn contains(&self, value: &ParamValue) -> (r: bool)
        ensures
            r == self@.member(value@),
    {
        match (self, value) {
            (Distribution::Float { bounds, .. }, ParamValue::Float(v)) => bounds.floor.le(v)
                && v.le(&bounds.ceiling),
            (Distribution::Int { low, high, .. }, ParamValue::Int(v)) => *low <= *v && *v <= *high,
            (Distribution::Categorical { choices }, ParamValue::Categorical(v)) => contains_text(
                choices,
                v.as_str(),
            ),
            (Distribution::Bool, ParamValue::Bool(_)) => true,
            _ => false,
        }
    }
}

/// The error that rejects the distribution of `name`.
pub fn invalid(name: &str, reason: Reason) -> (e: Error)
    ensures
        e matches Error::InvalidDistribution { name: n, reason: why } && n@ == name@ && why
            == reason,
{
    Error::InvalidDistribution { name: name.to_owned(), reason }
}

/// Whether `text` is one of `items`.
pub fn contains_text(items: &Vec<String>, text: &str) -> (r: bool)
    ensures
        r == models::of(items@).contains(text@),
{
    let mut i: usize = 0;
    while i < items.len()
        invariant
            i <= items@.len(),
            forall|k: int| 0 <= k < i ==> #[trigger] items@[k]@ != text@,
        decreases items@.len() - i,
    {
        if same_text(items[i].as_str(), text) {
            proof {
                assert(models::of(items@)[i as int] == text@);
            }
            return true;
        }
        i += 1;
    }
    proof {
        if models::of(items@).contains(text@) {
            let k = models::of(items@).index_of(text@);
            assert(items@[k]@ == text@);
        }
    }
    false
}

/// Copies a list of texts.
pub fn clone_texts(items: &Vec<String>) -> (r: Vec<String>)
    ensures
        r@ == items@,
{
    let mut out: Vec<String> = Vec::new();
    let mut i: usize = 0;
    while i < items.len()
        invariant
            i <= items@.len(),
            out@.len() == i,
            forall|k: int| 0 <= k < i ==> out@[k] == items@[k],
        decreases items@.len() - i,
    {
        out.push(items[i].clone());
        i += 1;
    }
    proof {
        assert(out@ =~= items@);
    }
    out
}

impl Clone for Distribution {
    fn clone(&self) -> (d: Self)
        ensures
            d@ == self@,
    {
        match self {
            Distribution::Float { bounds, log, step } => Distribution::Float {
                bounds: *bounds,
                log: *log,
                step: *step,
            },
            Distribution::Int { low, high, log, step } => Distribution::Int {
                low: *low,
                high: *high,
                log: *log,
                step: *step,
            },
            Distribution::Categorical { choices } => Distribution::Categorical {
                choices: clone_texts(choices),
            },
            Distribution::Bool => Distribution::Bool,
        }
    }
}

/// A float that is drawn on a log scale is drawn over its whole axis: uniformly from the logarithm
/// of the lower end to that of the upper one, and taken back by the exponential. It is left as it
/// is inside the range, and moved to the end that it passed otherwise.
pub proof fn law_log_floats_are_drawn_over_the_whole_axis<R: Reals>(
    reals: &R,
    bounds: Bounds,
    rng: TrialRng,
    x: Scalar,
    after: TrialRng,
)
    requires
        is_draw(
            reals,
            DistModel::Float { bounds, log: true, step: None },
            rng,
            ParamModel::Float(x),
            after,
        ),
        bounds.low.finite(),
        bounds.high.finite(),
        bounds.low.key() <= bounds.high.key(),
    ensures
        exists|lo: Scalar, hi: Scalar, t: Scalar, raw: Scalar|
            reals::is_ln(reals, bounds.low, lo) && reals::is_ln(reals, bounds.high, hi)
                && #[trigger] reals::is_uniform(reals, lo, hi, rng, t, after)
                && #[trigger] reals::is_exp(reals, t, raw) && (!raw.nan() && bounds.low.key()
                <= raw.key() <= bounds.high.key() ==> x == raw) && (raw.less(bounds.low) ==> x
                == bounds.low) && (bounds.high.less(raw) ==> x == bounds.high),
{
    let (raw, y) = choose|raw: Scalar, y: Scalar| #[trigger]
        is_raw_draw(reals, bounds, true, rng, raw, after) && #[trigger] is_step_of(
            reals,
            bounds,
            None,
            raw,
            y,
        ) && x == bounds.settled(y);
    let (lo, hi, t) = choose|lo: Scalar, hi: Scalar, t: Scalar|
        axis::lies_at(reals, bounds.low, true, lo) && axis::lies_at(reals, bounds.high, true, hi)
            && #[trigger] reals::is_uniform(reals, lo, hi, rng, t, after) && reals::is_exp(
            reals,
            t,
            raw,
        );
    assert(reals::is_exp(reals, t, raw));
}

/// Every number of a log-scaled range can be drawn: whatever the uniform draw over the whole axis
/// gives is taken back and handed out.
pub proof fn law_every_log_float_can_be_drawn<R: Reals>(
    reals: &R,
    bounds: Bounds,
    rng: TrialRng,
    lo: Scalar,
    hi: Scalar,
    t: Scalar,
    x: Scalar,
    after: TrialRng,
)
    requires
        reals::is_ln(reals, bounds.low, lo),
        reals::is_ln(reals, bounds.high, hi),
        reals::is_uniform(reals, lo, hi, rng, t, after),
        reals::is_exp(reals, t, x),
        !x.nan(),
        bounds.low.key() <= x.key() <= bounds.high.key(),
    ensures
        is_draw(
            reals,
            DistModel::Float { bounds, log: true, step: None },
            rng,
            ParamModel::Float(x),
            after,
        ),
{
    assert(is_raw_draw(reals, bounds, true, rng, x, after));
    assert(is_step_of(reals, bounds, None, x, x));
}

/// A float that is drawn on a plain scale is drawn uniformly from the lower end to the upper one,
/// unless the two are closer than the spacing of floats at one; a draw inside the range is left as
/// it is.
pub proof fn law_plain_floats_are_drawn_over_the_whole_range<R: Reals>(
    reals: &R,
    bounds: Bounds,
    rng: TrialRng,
    x: Scalar,
    after: TrialRng,
)
    requires
        is_draw(
            reals,
            DistModel::Float { bounds, log: false, step: None },
            rng,
            ParamModel::Float(x),
            after,
        ),
        bounds.low.finite(),
        bounds.high.finite(),
        bounds.low.key() <= bounds.high.key(),
        forall|w: Scalar| #[trigger]
            reals::is_difference(reals, bounds.high, bounds.low, w) ==> w.nan() || w.key()
                >= 0x3cb0_0000_0000_0000,
    ensures
        exists|raw: Scalar| #[trigger]
            reals::is_uniform(reals, bounds.low, bounds.high, rng, raw, after) && (!raw.nan()
                && bounds.low.key() <= raw.key() <= bounds.high.key() ==> x == raw) && (raw.less(
                bounds.low,
            ) ==> x == bounds.low) && (bounds.high.less(raw) ==> x == bounds.high),
{
    let (raw, y) = choose|raw: Scalar, y: Scalar| #[trigger]
        is_raw_draw(reals, bounds, false, rng, raw, after) && #[trigger] is_step_of(
            reals,
            bounds,
            None,
            raw,
            y,
        ) && x == bounds.settled(y);
    assert(reals::is_uniform(reals, bounds.low, bounds.high, rng, raw, after));
}

/// Every number of a range can be drawn where its ends can be told apart.
pub proof fn law_every_plain_float_can_be_drawn<R: Reals>(
    reals: &R,
    bounds: Bounds,
    rng: TrialRng,
    width: Scalar,
    x: Scalar,
    after: TrialRng,
)
    requires
        reals::is_difference(reals, bounds.high, bounds.low, width),
        width.nan() || width.key() >= 0x3cb0_0000_0000_0000,
        reals::is_uniform(reals, bounds.low, bounds.high, rng, x, after),
        !x.nan(),
        bounds.low.key() <= x.key() <= bounds.high.key(),
    ensures
        is_draw(
            reals,
            DistModel::Float { bounds, log: false, step: None },
            rng,
            ParamModel::Float(x),
            after,
        ),
{
    assert(is_raw_draw(reals, bounds, false, rng, x, after));
    assert(is_step_of(reals, bounds, None, x, x));
}

/// A float that is drawn with a step is the number at whole steps from the lower end that is
/// nearest to the raw draw, moved down to the last such number of the range if it passed that.
pub proof fn law_stepped_floats_are_snapped<R: Reals>(
    reals: &R,
    bounds: Bounds,
    log: bool,
    step: Scalar,
    rng: TrialRng,
    x: Scalar,
    after: TrialRng,
)
    requires
        is_draw(
            reals,
            DistModel::Float { bounds, log, step: Some(step) },
            rng,
            ParamModel::Float(x),
            after,
        ),
        bounds.low.finite(),
        bounds.high.finite(),
        bounds.low.key() <= bounds.high.key(),
    ensures
        exists|raw: Scalar, snapped: Scalar, last: Scalar|
            is_raw_draw(reals, bounds, log, rng, raw, after) && #[trigger] reals::is_snap(
                reals,
                raw,
                bounds.low,
                step,
                snapped,
            ) && #[trigger] reals::is_last_step(reals, bounds.low, bounds.high, step, last) && (
            !snapped.nan() && !last.nan() && bounds.low.key() <= last.key() <= bounds.high.key()
                ==> (bounds.low.key() <= snapped.key() <= last.key() ==> x == snapped) && (
            last.key() < snapped.key() ==> x == last) && (snapped.key() < bounds.low.key() ==> x
                == bounds.low)),
{
    let (raw, y) = choose|raw: Scalar, y: Scalar| #[trigger]
        is_raw_draw(reals, bounds, log, rng, raw, after) && #[trigger] is_step_of(
            reals,
            bounds,
            Some(step),
            raw,
            y,
        ) && x == bounds.settled(y);
    let (snapped, top) = choose|snapped: Scalar, top: Scalar| #[trigger]
        reals::is_snap(reals, raw, bounds.low, step, snapped) && #[trigger] axis::is_top(
            reals,
            bounds,
            Some(step),
            top,
        ) && y == snapped.clamped(bounds.low, top);
    let last = choose|last: Scalar| #[trigger]
        reals::is_last_step(reals, bounds.low, bounds.high, step, last) && top == if last.nan() {
            bounds.high
        } else {
            last.clamped(bounds.low, bounds.high)
        };
    assert(reals::is_snap(reals, raw, bounds.low, step, snapped));
    assert(reals::is_last_step(reals, bounds.low, bounds.high, step, last));
}

proof fn nearest_step_is_nearest(low: int, high: int, step: int, x: int, w: int)
    requires
        low <= x <= high,
        step >= 1,
        low <= w <= high,
        (w - low) % step == 0,
    ensures
        ({
            let v = nearest_step(low, high, step, x);
            &&& low <= v <= high
            &&& (v - low) % step == 0
            &&& v <= x ==> w <= v || w - x >= x - v
            &&& v >= x ==> w >= v || x - w >= v - x
        }),
{
    let off = x - low;
    let k = (off + step / 2) / step;
    let last = (high - low) / step;
    let j = (w - low) / step;
    let (a, b) = (off + step / 2, high - low);
    vstd::arithmetic::div_mod::lemma_fundamental_div_mod(a, step);
    vstd::arithmetic::div_mod::lemma_fundamental_div_mod(b, step);
    vstd::arithmetic::div_mod::lemma_fundamental_div_mod(w - low, step);
    vstd::arithmetic::div_mod::lemma_mod_bound(a, step);
    vstd::arithmetic::div_mod::lemma_mod_bound(b, step);
    vstd::arithmetic::div_mod::lemma_div_pos_is_pos(a, step);
    vstd::arithmetic::div_mod::lemma_div_pos_is_pos(b, step);
    vstd::arithmetic::div_mod::lemma_div_is_ordered(w - low, b, step);
    evolution::law_snapping_stays_on_the_steps(low, high, step, k);
    let n = if k < last {
        k
    } else {
        last
    };
    assert(k < last ==> k * step < last * step) by (nonlinear_arith)
        requires
            step >= 1,
    ;
    assert(k >= last ==> k * step >= last * step) by (nonlinear_arith)
        requires
            step >= 1,
    ;
    assert(step * k == k * step && step * last == last * step && step * j == j * step)
        by (nonlinear_arith);
    assert(k * step >= 0) by (nonlinear_arith)
        requires
            k >= 0,
            step >= 1,
    ;
    assert(last * step >= 0) by (nonlinear_arith)
        requires
            last >= 0,
            step >= 1,
    ;
    let v = nearest_step(low, high, step, x);
    assert(v == low + n * step);
    vstd::arithmetic::div_mod::lemma_mod_multiples_basic(n, step);
    assert(j > n ==> j * step >= n * step + step) by (nonlinear_arith)
        requires
            step >= 1,
    ;
    assert(j < n ==> j * step + step <= n * step) by (nonlinear_arith)
        requires
            step >= 1,
    ;
    assert(j == n ==> j * step == n * step);
}

/// An integer that is drawn on a log scale is drawn over its whole axis: uniformly from the
/// logarithm of the lower end to that of the upper one, taken back by the exponential, rounded,
/// moved into the range, and then to the nearest of the steps that lead up from the lower end.
pub proof fn law_log_ints_are_drawn_over_the_whole_axis<R: Reals>(
    reals: &R,
    low: i64,
    high: i64,
    step: i64,
    rng: TrialRng,
    v: i64,
    after: TrialRng,
)
    requires
        is_draw(
            reals,
            DistModel::Int { low, high, log: true, step },
            rng,
            ParamModel::Int(v),
            after,
        ),
        low <= high,
        step >= 1,
    ensures
        low <= v <= high,
        (v - low) % (step as int) == 0,
        exists|a: Scalar, b: Scalar, lo: Scalar, hi: Scalar, t: Scalar, x: Scalar, raw: i64|
            #[trigger] reals::is_of_int(reals, low, a) && #[trigger] reals::is_of_int(
                reals,
                high,
                b,
            ) && #[trigger] reals::is_ln(reals, a, lo) && #[trigger] reals::is_ln(reals, b, hi)
                && #[trigger] reals::is_uniform(reals, lo, hi, rng, t, after)
                && #[trigger] reals::is_exp(reals, t, x) && #[trigger] reals::is_round(
                reals,
                x,
                raw,
            ) && (raw <= low ==> v == low) && (low <= raw <= high && step == 1 ==> v == raw) && (
            low <= raw <= high ==> forall|w: i64|
                low <= w <= high && #[trigger] ((w - low) % (step as int)) == 0 ==> (v <= raw ==> w
                    <= v || w - raw >= raw - v) && (v >= raw ==> w >= v || raw - w >= v - raw)),
{
    let raw = choose|raw: i64| #[trigger]
        is_raw_int(reals, low, high, rng, raw, after) && v == nearest_step(
            low as int,
            high as int,
            step as int,
            raw as int,
        ) as i64;
    let (lo, hi, t, x) = choose|lo: Scalar, hi: Scalar, t: Scalar, x: Scalar|
        axis::int_lies_at(reals, low, true, lo) && axis::int_lies_at(reals, high, true, hi)
            && #[trigger] reals::is_uniform(reals, lo, hi, rng, t, after)
            && #[trigger] reals::is_exp(reals, t, x) && reals::is_round(reals, x, raw);
    let a = choose|a: Scalar| #[trigger]
        reals::is_of_int(reals, low, a) && axis::lies_at(reals, a, true, lo);
    let b = choose|b: Scalar| #[trigger]
        reals::is_of_int(reals, high, b) && axis::lies_at(reals, b, true, hi);
    let (l, h, s) = (low as int, high as int, step as int);
    let inside = if raw < low {
        l
    } else if raw > high {
        h
    } else {
        raw as int
    };
    assert(nearest_step(l, h, s, raw as int) == nearest_step(l, h, s, inside));
    vstd::arithmetic::div_mod::lemma_small_mod(0, step as nat);
    nearest_step_is_nearest(l, h, s, inside, l);
    if inside == l {
        nearest_step_is_nearest(l, h, s, l, l);
        assert(v == low);
    }
    if step == 1 && low <= raw <= high {
        law_single_steps_hold_every_integer(l, h, raw as int);
    }
    assert forall|w: i64|
        low <= raw <= high && low <= w <= high && #[trigger] ((w - low) % (step as int)) == 0 implies (
    v <= raw ==> w <= v || w - raw >= raw - v) && (v >= raw ==> w >= v || raw - w >= v - raw) by {
        nearest_step_is_nearest(l, h, s, raw as int, w as int);
    }
    assert(reals::is_ln(reals, a, lo) && reals::is_ln(reals, b, hi));
    assert(reals::is_round(reals, x, raw));
}

/// A plain integer is drawn with equal right for every step of its range: one whole-numbered draw
/// of as many as there are steps, counted up from the lower end.
pub proof fn law_plain_ints_are_drawn_from_every_step<R: Reals>(
    reals: &R,
    low: i64,
    high: i64,
    step: i64,
    rng: TrialRng,
    v: i64,
    after: TrialRng,
)
    requires
        is_draw(
            reals,
            DistModel::Int { low, high, log: false, step },
            rng,
            ParamModel::Int(v),
            after,
        ),
        low <= high,
        high - low < u64::MAX,
        step >= 1,
    ensures
        exists|n: u64|
            low + (n - 1) * step <= high < low + n * step && (#[trigger] rng.pick(n) < n ==> v
                == low + rng.pick(n) * step) && after == rng.past_pick(n),
{
    let (l, h, s) = (low as int, high as int, step as int);
    let count = int_count(l, h, s);
    vstd::arithmetic::div_mod::lemma_fundamental_div_mod(h - l, s);
    vstd::arithmetic::div_mod::lemma_mod_bound(h - l, s);
    vstd::arithmetic::div_mod::lemma_div_pos_is_pos(h - l, s);
    vstd::arithmetic::div_mod::lemma_div_is_ordered_by_denominator(h - l, 1, s);
    let n = count as u64;
    assert(s * ((h - l) / s) == (n - 1) * s) by (nonlinear_arith)
        requires
            n == (h - l) / s + 1,
    ;
    assert(n * s == (n - 1) * s + s) by (nonlinear_arith);
    if rng.pick(n) < n {
        int_grid_bounds(l, h, s, rng.pick(n) as int);
    }
}

/// A choice is drawn with equal right from all of them, and a boolean by a fair coin.
pub proof fn law_choices_are_drawn_from_all<R: Reals>(
    reals: &R,
    choices: Seq<Seq<char>>,
    rng: TrialRng,
    v: ParamModel,
    after: TrialRng,
)
    ensures
        is_draw(reals, DistModel::Categorical { choices }, rng, v, after) ==> v
            == ParamModel::Categorical(choices[rng.pick(choices.len() as u64) as int]) && after
            == rng.past_pick(choices.len() as u64),
        is_draw(reals, DistModel::Bool, rng, v, after) ==> v == ParamModel::Bool(rng.flip())
            && after == rng.past_flip(),
{
}

/// A grid over a float range places its points evenly on the axis, from the lower end to the upper
/// one: point `i` of `n` lies `i` of `n - 1` parts of the way, on the log scale where the range has
/// one.
pub proof fn law_float_grids_span_the_axis<R: Reals>(
    reals: &R,
    bounds: Bounds,
    log: bool,
    samples: usize,
    grid: Seq<ParamModel>,
    i: int,
)
    requires
        is_grid(reals, DistModel::Float { bounds, log, step: None }, samples, grid),
        samples >= 2,
        0 <= i < samples,
    ensures
        grid.len() == samples,
        exists|lo: Scalar, hi: Scalar, t: Scalar, at: Scalar, raw: Scalar|
            (if log {
                reals::is_ln(reals, bounds.low, lo) && reals::is_ln(reals, bounds.high, hi)
                    && reals::is_exp(reals, at, raw)
            } else {
                lo == bounds.low && hi == bounds.high && raw == at
            }) && #[trigger] reals::is_ratio(reals, i as usize, (samples - 1) as usize, t)
                && #[trigger] reals::is_mix(reals, lo, hi, t, at) && #[trigger] axis::is_plain(
                reals,
                at,
                log,
                raw,
            ) && (grid[i] matches ParamModel::Float(x) && (!raw.nan() && bounds.low.finite()
                && bounds.high.finite() && bounds.low.key() <= raw.key() <= bounds.high.key() ==> x
                == raw)),
{
    assert(grid[i] is Float);
    let x = grid[i]->Float_0;
    let (lo, hi, t, at, raw) = choose|
        lo: Scalar,
        hi: Scalar,
        t: Scalar,
        at: Scalar,
        raw: Scalar,
    |
        axis::lies_at(reals, bounds.low, log, lo) && axis::lies_at(reals, bounds.high, log, hi)
            && #[trigger] reals::is_ratio(reals, i as usize, (samples - 1) as usize, t)
            && #[trigger] reals::is_mix(reals, lo, hi, t, at) && #[trigger] axis::is_plain(
            reals,
            at,
            log,
            raw,
        ) && x == (DistModel::Float { bounds, log, step: None }).placed(bounds, raw);
    assert(reals::is_ratio(reals, i as usize, (samples - 1) as usize, t));
    assert(reals::is_mix(reals, lo, hi, t, at));
    assert(axis::is_plain(reals, at, log, raw));
}

/// A distribution without defect has a value to give: its bounds are finite and in order, it has
/// positive bounds on a logarithmic axis and positive steps, and some choice.
pub proof fn law_sound_distributions_have_room(d: DistModel)
    ensures
        d.defect() is None <==> match d {
            DistModel::Float { bounds, log, step } => bounds.low.finite() && bounds.high.finite()
                && !bounds.high.less(bounds.low) && (log ==> step is None && !bounds.low.less(
                Scalar { bits: 0 },
            ) && !bounds.low.same(Scalar { bits: 0 })) && (step matches Some(s) ==> s.nan() || (
            Scalar { bits: 0 }).less(s)),
            DistModel::Int { low, high, log, step } => low <= high && step >= 1 && (log ==> low
                >= 1),
            DistModel::Categorical { choices } => choices.len() > 0,
            DistModel::Bool => true,
        },
{
}

} // verus!
