//! Objectives, report sinks, and task adapters: the seam between the engine and a workload.
//!
//! Any workload that can produce named metrics can be optimized. A running trial streams
//! intermediate metrics through a [`ReportSink`] and asks it whether to stop.

use vstd::prelude::*;
use crate::error::Error;
use crate::metrics::NamedMetrics;
use crate::param::{Assignment, ParamSet};
use crate::space::SearchSpace;
use crate::trial::{Metrics, TrialId};

verus! {

/// The reports that were made through a sink: each step with its metrics, oldest first.
pub type ReportLog = Seq<(u64, Metrics)>;

/// What an evaluation comes to: its metrics, or why it failed.
pub type Outcome = Result<Metrics, Error>;

/// What the result of an evaluation stands for in contracts.
pub open spec fn outcome_of(r: Result<NamedMetrics, Error>) -> Outcome {
    match r {
        Ok(m) => Ok(m@),
        Err(e) => Err(e),
    }
}

/// Whether `after` is the log `before` with `reports` made behind it.
pub open spec fn log_grows(before: ReportLog, reports: ReportLog, after: ReportLog) -> bool {
    after == before + reports
}

/// How a running objective streams intermediate metrics and checks whether it has been asked to
/// stop. Objectives report at each checkpointing step and then poll [`ReportSink::should_stop`].
pub trait ReportSink {
    /// What a sink is set up on, and never changes.
    type Anchor;

    /// What the sink was set up on.
    spec fn anchor(&self) -> Self::Anchor;

    /// The trial that a sink takes reports for.
    spec fn trial_of(anchor: Self::Anchor) -> TrialId;

    /// The reports made through the sink.
    spec fn log(&self) -> ReportLog;

    /// Whether the sink has only taken the reports of its log since it was set up.
    spec fn sound(&self) -> bool;

    /// Whether the trial has been asked to stop.
    spec fn stopping(&self) -> bool;

    /// The trial currently being evaluated.
    fn trial_id(&self) -> (id: TrialId)
        requires
            self.sound(),
        ensures
            id == Self::trial_of(self.anchor()),
    ;

    /// Report intermediate metrics at `step`. Idempotent per `(trial, step)`.
    fn report(&mut self, step: u64, metrics: NamedMetrics) -> (r: Result<(), Error>)
        requires
            old(self).sound(),
        ensures
            final(self).sound(),
            final(self).anchor() == old(self).anchor(),
            final(self).log() == old(self).log().push((step, metrics@)),
    ;

    /// Whether the trial should stop now (pruned or cancelled).
    fn should_stop(&self) -> (r: bool)
        ensures
            r == self.stopping(),
    ;
}

/// The simplest optimizable workload: a function from parameters to metrics. The sink is only
/// ever reported to.
pub trait Objective {
    /// Whether an evaluation of `params` may make `reports` and come to `outcome`, where `stopped`
    /// says whether the trial has been asked to stop by then.
    spec fn allows(
        &self,
        params: Assignment,
        reports: ReportLog,
        stopped: bool,
        outcome: Outcome,
    ) -> bool;

    /// Evaluate the objective for one parameter assignment.
    fn evaluate<K: ReportSink>(&self, params: &ParamSet, report: &mut K) -> (r: Result<
        NamedMetrics,
        Error,
    >)
        requires
            old(report).sound(),
        ensures
            final(report).sound(),
            final(report).anchor() == old(report).anchor(),
            exists|reports: ReportLog| #[trigger]
                log_grows(old(report).log(), reports, final(report).log()) && self.allows(
                    params@,
                    reports,
                    final(report).stopping(),
                    outcome_of(r),
                ),
    ;
}

/// A workload that owns its search space. `Ctx` carries whatever shared, read-only context a run
/// needs (a dataset handle, a device, an environment factory).
pub trait TaskAdapter<Ctx> {
    /// Whether a run of `params` against a context may make `reports` and come to `outcome`, where
    /// `stopped` says whether the trial has been asked to stop by then.
    spec fn allows_in(
        &self,
        params: Assignment,
        ctx: &Ctx,
        reports: ReportLog,
        stopped: bool,
        outcome: Outcome,
    ) -> bool;

    /// Build the search space this adapter optimizes over.
    fn build_space(&self) -> SearchSpace;

    /// Run one trial for a parameter assignment against the shared context.
    fn run<K: ReportSink>(&self, params: &ParamSet, ctx: &Ctx, report: &mut K) -> (r: Result<
        NamedMetrics,
        Error,
    >)
        requires
            old(report).sound(),
        ensures
            final(report).sound(),
            final(report).anchor() == old(report).anchor(),
            exists|reports: ReportLog| #[trigger]
                log_grows(old(report).log(), reports, final(report).log()) && self.allows_in(
                    params@,
                    ctx,
                    reports,
                    final(report).stopping(),
                    outcome_of(r),
                ),
    ;
}

} // verus!
