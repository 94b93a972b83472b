//! Budgets: anything that can decide "are we done?" from a tally of what was consumed.

use vstd::prelude::*;
use crate::clock::render_duration;
use crate::scalar::Scalar;
use crate::text::{decimal_text, join};
#[allow(unused_imports)]
use crate::clock;
#[allow(unused_imports)]
use crate::text;

verus! {

/// Running tally of resources a study has consumed, compared against a budget.
#[derive(Debug, Clone, Copy, PartialEq, Eq, Structural)]
pub struct Consumption {
    /// Number of trials started.
    pub trials: u64,
    /// Wall-clock nanoseconds elapsed since the study began.
    pub wall_time: u128,
    /// Total training epochs consumed across trials.
    pub epochs: u64,
    /// Total environment/optimizer steps consumed.
    pub steps: u64,
    /// GPU-hours consumed.
    pub gpu_hours: Scalar,
}

impl Consumption {
    /// A zeroed tally.
    pub fn new() -> (c: Self)
        ensures
            c.trials == 0,
            c.wall_time == 0,
            c.epochs == 0,
            c.steps == 0,
            c.gpu_hours.pattern() == 0,
    {
        Consumption { trials: 0, wall_time: 0, epochs: 0, steps: 0, gpu_hours: Scalar::zero() }
    }
}

impl Default for Consumption {
    fn default() -> (c: Self)
        ensures
            c.trials == 0,
            c.wall_time == 0,
            c.epochs == 0,
            c.steps == 0,
            c.gpu_hours.pattern() == 0,
    {
        Consumption::new()
    }
}

/// How much of a budget remains. Reported for observability; the authoritative decision is
/// [`Budget::is_exhausted`].
#[derive(Debug, Clone, Copy, PartialEq, Eq, Structural)]
pub enum BudgetRemaining {
    /// The fraction `left / total` of the budget remains.
    Fraction {
        /// How much is left.
        left: u128,
        /// How much there was; never zero.
        total: u128,
    },
    /// The budget cannot be expressed as a simple fraction; only exhaustion is meaningful.
    Unknown,
    /// The budget is unbounded.
    Unbounded,
}

/// What is left of `total` after `used`; nothing is left of an empty budget.
pub open spec fn left_of(total: nat, used: nat) -> BudgetRemaining {
    if total == 0 {
        BudgetRemaining::Fraction { left: 0, total: 1 }
    } else {
        BudgetRemaining::Fraction {
            left: if used < total {
                (total - used) as u128
            } else {
                0
            },
            total: total as u128,
        }
    }
}

fn left(total: u128, used: u128) -> (r: BudgetRemaining)
    ensures
        r == left_of(total as nat, used as nat),
{
    if total == 0 {
        BudgetRemaining::Fraction { left: 0, total: 1 }
    } else {
        BudgetRemaining::Fraction { left: total.saturating_sub(used), total }
    }
}

/// The exhaustion contract every budget implements.
pub trait Budget {
    /// When the study should stop launching new trials.
    spec fn exhausted(&self, consumed: Consumption) -> bool;

    /// Whether the study should stop launching new trials.
    fn is_exhausted(&self, consumed: &Consumption) -> (r: bool)
        ensures
            r == self.exhausted(*consumed),
    ;

    /// A best-effort estimate of remaining budget for reporting.
    fn remaining(&self, consumed: &Consumption) -> BudgetRemaining;

    /// A short label for logging and provenance.
    fn describe(&self) -> String;
}

/// Stop after a fixed number of trials.
#[derive(Debug, Clone, Copy)]
pub struct TrialBudget {
    /// Maximum number of trials to run.
    pub max_trials: u64,
}

impl Budget for TrialBudget {
    open spec fn exhausted(&self, consumed: Consumption) -> bool {
        consumed.trials >= self.max_trials
    }

    fn is_exhausted(&self, consumed: &Consumption) -> (r: bool) {
        consumed.trials >= self.max_trials
    }

    fn remaining(&self, consumed: &Consumption) -> (r: BudgetRemaining)
        ensures
            r == left_of(self.max_trials as nat, consumed.trials as nat),
    {
        left(self.max_trials as u128, consumed.trials as u128)
    }

    fn describe(&self) -> (s: String)
        ensures
            s@ == text::decimal(self.max_trials as nat) + " trials"@,
    {
        let n = decimal_text(self.max_trials);
        join(n.as_str(), " trials")
    }
}

/// Stop after a wall-clock duration.
#[derive(Debug, Clone, Copy)]
pub struct WallTimeBudget {
    /// Maximum wall-clock duration in nanoseconds.
    pub limit: u128,
}

/// The nanoseconds in a second.
pub const SECOND: u128 = 1_000_000_000;

impl WallTimeBudget {
    /// The whole seconds of the limit, as far as a duration can count them.
    pub open spec fn secs(self) -> u64 {
        if self.limit / SECOND <= u64::MAX {
            (self.limit / SECOND) as u64
        } else {
            u64::MAX
        }
    }
}

impl Budget for WallTimeBudget {
    open spec fn exhausted(&self, consumed: Consumption) -> bool {
        consumed.wall_time >= self.limit
    }

    fn is_exhausted(&self, consumed: &Consumption) -> (r: bool) {
        consumed.wall_time >= self.limit
    }

    fn remaining(&self, consumed: &Consumption) -> (r: BudgetRemaining)
        ensures
            r == left_of(self.limit as nat, consumed.wall_time as nat),
    {
        left(self.limit, consumed.wall_time)
    }

    fn describe(&self) -> (s: String)
        ensures
            s@ == clock::duration_debug(self.secs(), (self.limit % SECOND) as u32) + " wall time"@,
    {
        let whole: u128 = self.limit / SECOND;
        let secs: u64 = if whole <= u64::MAX as u128 {
            whole as u64
        } else {
            u64::MAX
        };
        let text = render_duration(secs, (self.limit % SECOND) as u32);
        join(text.as_str(), " wall time")
    }
}

/// Stop after a total number of training epochs across all trials.
#[derive(Debug, Clone, Copy)]
pub struct EpochBudget {
    /// Maximum total epochs.
    pub max_epochs: u64,
}

impl Budget for EpochBudget {
    open spec fn exhausted(&self, consumed: Consumption) -> bool {
        consumed.epochs >= self.max_epochs
    }

    fn is_exhausted(&self, consumed: &Consumption) -> (r: bool) {
        consumed.epochs >= self.max_epochs
    }

    fn remaining(&self, consumed: &Consumption) -> (r: BudgetRemaining)
        ensures
            r == left_of(self.max_epochs as nat, consumed.epochs as nat),
    {
        left(self.max_epochs as u128, consumed.epochs as u128)
    }

    fn describe(&self) -> (s: String)
        ensures
            s@ == text::decimal(self.max_epochs as nat) + " epochs"@,
    {
        let n = decimal_text(self.max_epochs);
        join(n.as_str(), " epochs")
    }
}

/// Stop after a total number of reported steps across all trials.
#[derive(Debug, Clone, Copy)]
pub struct StepBudget {
    /// Maximum total steps.
    pub max_steps: u64,
}

impl Budget for StepBudget {
    open spec fn exhausted(&self, consumed: Consumption) -> bool {
        consumed.steps >= self.max_steps
    }

    fn is_exhausted(&self, consumed: &Consumption) -> (r: bool) {
        consumed.steps >= self.max_steps
    }

    fn remaining(&self, consumed: &Consumption) -> (r: BudgetRemaining)
        ensures
            r == left_of(self.max_steps as nat, consumed.steps as nat),
    {
        left(self.max_steps as u128, consumed.steps as u128)
    }

    fn describe(&self) -> (s: String)
        ensures
            s@ == text::decimal(self.max_steps as nat) + " steps"@,
    {
        let n = decimal_text(self.max_steps);
        join(n.as_str(), " steps")
    }
}

/// A budget that never exhausts. Useful for interactive exploration where the caller stops the
/// study manually.
#[derive(Debug, Clone, Copy, Default)]
pub struct Unbounded;

impl Budget for Unbounded {
    open spec fn exhausted(&self, consumed: Consumption) -> bool {
        false
    }

    fn is_exhausted(&self, consumed: &Consumption) -> (r: bool) {
        false
    }

    fn remaining(&self, consumed: &Consumption) -> (r: BudgetRemaining)
        ensures
            r == BudgetRemaining::Unbounded,
    {
        BudgetRemaining::Unbounded
    }

    fn describe(&self) -> (s: String)
        ensures
            s@ == "unbounded"@,
    {
        "unbounded".to_owned()
    }
}

/// A [`TrialBudget`].
pub fn trials(max_trials: u64) -> (b: TrialBudget)
    ensures
        b.max_trials == max_trials,
{
    TrialBudget { max_trials }
}

/// A [`WallTimeBudget`] of `limit` nanoseconds.
pub fn wall_time(limit: u128) -> (b: WallTimeBudget)
    ensures
        b.limit == limit,
{
    WallTimeBudget { limit }
}

/// An [`EpochBudget`].
pub fn epochs(max_epochs: u64) -> (b: EpochBudget)
    ensures
        b.max_epochs == max_epochs,
{
    EpochBudget { max_epochs }
}

/// A budget that is used up has nothing left, and one that is not has something left: what remains
/// of it is what was not used.
pub proof fn law_what_is_left_was_not_used(total: u128, used: u128)
    requires
        total > 0,
    ensures
        left_of(total as nat, used as nat) matches BudgetRemaining::Fraction { left, total: whole }
            && whole == total && (left == 0 <==> used >= total) && (used <= total ==> left + used
            == total),
{
}

/// Each budget goes by what it limits, and by nothing else.
pub proof fn law_budgets_end_where_their_limit_is_reached(
    trials: TrialBudget,
    time: WallTimeBudget,
    epochs: EpochBudget,
    consumed: Consumption,
)
    ensures
        trials.exhausted(consumed) <==> left_of(
            trials.max_trials as nat,
            consumed.trials as nat,
        )->left == 0,
        time.exhausted(consumed) <==> left_of(
            time.limit as nat,
            consumed.wall_time as nat,
        )->left == 0,
        epochs.exhausted(consumed) <==> left_of(
            epochs.max_epochs as nat,
            consumed.epochs as nat,
        )->left == 0,
{
}

} // verus!
