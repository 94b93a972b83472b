//! Trials: identity, lifecycle state, intermediate reports, and history.
//!
//! A [`TrialRecord`] is what is persisted of a trial. The [`TrialHistory`] handed to samplers
//! and pruners is a read-only view over the trials of a study.

use vstd::prelude::*;
use crate::metrics::NamedMetrics;
use crate::param::{Assignment, ParamSet};
use crate::provenance::{EnvModel, EnvSnapshot, TrialTiming};
use crate::scalar::Scalar;
use crate::text::{decimal_text, join};
#[allow(unused_imports)]
use crate::models;
#[allow(unused_imports)]
use crate::text;

verus! {

/// Opaque identifier for a study.
#[derive(Debug, Clone, Copy, PartialEq, Eq, Hash, PartialOrd, Ord, Structural)]
pub struct StudyId(pub u64);

/// Opaque identifier for a trial, unique within a store.
#[derive(Debug, Clone, Copy, PartialEq, Eq, Hash, PartialOrd, Ord, Structural)]
pub struct TrialId(pub u64);

impl TrialId {
    /// The identifier in words: `trial#` and its number.
    pub fn label(&self) -> (s: String)
        ensures
            s@ == "trial#"@ + text::decimal(self.0 as nat),
    {
        let n = decimal_text(self.0);
        join("trial#", n.as_str())
    }
}

impl StudyId {
    /// The identifier in words: `study#` and its number.
    pub fn label(&self) -> (s: String)
        ensures
            s@ == "study#"@ + text::decimal(self.0 as nat),
    {
        let n = decimal_text(self.0);
        join("study#", n.as_str())
    }
}

/// Lifecycle state of a trial.
#[derive(Debug, Clone, Copy, PartialEq, Eq, Structural)]
pub enum TrialState {
    /// Enqueued, not yet started.
    Waiting,
    /// Currently executing.
    Running,
    /// Finished successfully with final metrics.
    Complete,
    /// Terminated early by a pruner.
    Pruned,
    /// Terminated by an error in the objective.
    Failed,
    /// Cancelled by the study or a lease expiry.
    Cancelled,
}

impl TrialState {
    /// Neither waiting nor running.
    pub open spec fn terminal(self) -> bool {
        self != TrialState::Waiting && self != TrialState::Running
    }

    /// Whether this is a terminal state (no further reports expected).
    pub fn is_terminal(&self) -> (r: bool)
        ensures
            r == self.terminal(),
    {
        match self {
            TrialState::Complete
            | TrialState::Pruned
            | TrialState::Failed
            | TrialState::Cancelled => true,
            TrialState::Waiting | TrialState::Running => false,
        }
    }

    /// Whether the trial's curve is settled: it ran to the end or was pruned.
    pub open spec fn settled(self) -> bool {
        self == TrialState::Complete || self == TrialState::Pruned
    }
}

/// The metrics of a report, or of a finished trial.
pub type Metrics = Map<Seq<char>, Scalar>;

/// A single intermediate report: metrics at a training step.
#[derive(Debug)]
pub struct IntermediateReport {
    /// The step (epoch, iteration, environment step) this report is for.
    pub step: u64,
    /// Metrics observed at this step.
    pub metrics: NamedMetrics,
}

/// What an [`IntermediateReport`] stands for in contracts.
pub struct ReportModel {
    /// The step.
    pub step: u64,
    /// Metrics observed at this step.
    pub metrics: Metrics,
}

impl View for IntermediateReport {
    type V = ReportModel;

    open spec fn view(&self) -> ReportModel {
        ReportModel { step: self.step, metrics: self.metrics@ }
    }
}

impl Clone for IntermediateReport {
    fn clone(&self) -> (r: Self)
        ensures
            r@ == self@,
    {
        IntermediateReport { step: self.step, metrics: self.metrics.clone() }
    }
}

/// The metrics of the first report at `step`.
pub open spec fn report_at(reports: Seq<ReportModel>, step: u64) -> Option<Metrics>
    decreases reports.len(),
{
    if reports.len() == 0 {
        None
    } else if reports[0].step == step {
        Some(reports[0].metrics)
    } else {
        report_at(reports.drop_first(), step)
    }
}

/// The value of `objective` in `m`.
pub open spec fn value_in(m: Option<Metrics>, objective: Seq<char>) -> Option<Scalar> {
    match m {
        Some(m) => if m.contains_key(objective) {
            Some(m[objective])
        } else {
            None
        },
        None => None,
    }
}

proof fn report_at_first(reports: Seq<ReportModel>, step: u64, at: int)
    requires
        0 <= at <= reports.len(),
        forall|k: int| 0 <= k < at ==> (#[trigger] reports[k]).step != step,
        at < reports.len() ==> reports[at].step == step,
    ensures
        report_at(reports, step) == if at < reports.len() {
            Some(reports[at].metrics)
        } else {
            None
        },
    decreases reports.len(),
{
    if reports.len() > 0 && at > 0 {
        assert(reports[0].step != step);
        let rest = reports.drop_first();
        assert forall|k: int| 0 <= k < at - 1 implies (#[trigger] rest[k]).step != step by {
            assert(rest[k] == reports[k + 1]);
        }
        report_at_first(rest, step, at - 1);
    }
}

/// The first report at `step`.
pub fn find_report(reports: &Vec<IntermediateReport>, step: u64) -> (r: Option<
    &IntermediateReport,
>)
    ensures
        match r {
            Some(ir) => report_at(models::of(reports@), step) == Some(ir@.metrics) && ir@.step
                == step,
            None => report_at(models::of(reports@), step) is None,
        },
{
    let mut i: usize = 0;
    while i < reports.len()
        invariant
            i <= reports@.len(),
            forall|k: int| 0 <= k < i ==> (#[trigger] reports@[k]).step != step,
        decreases reports@.len() - i,
    {
        if reports[i].step == step {
            proof {
                report_at_first(models::of(reports@), step, i as int);
            }
            return Some(&reports[i]);
        }
        i += 1;
    }
    proof {
        report_at_first(models::of(reports@), step, i as int);
    }
    None
}

/// The persisted record of a trial.
#[derive(Debug)]
pub struct TrialRecord {
    /// Trial identity.
    pub id: TrialId,
    /// Owning study.
    pub study_id: StudyId,
    /// The sampled parameters.
    pub params: ParamSet,
    /// Current lifecycle state.
    pub state: TrialState,
    /// Intermediate reports in step order.
    pub intermediate: Vec<IntermediateReport>,
    /// Final metrics, present once the trial completes.
    pub final_metrics: Option<NamedMetrics>,
    /// The seed used to make this trial reproducible.
    pub seed: u64,
    /// The environment the trial was queued in.
    pub env: EnvSnapshot,
    /// When the trial was queued, started and completed.
    pub timing: TrialTiming,
}

/// What a [`TrialRecord`] stands for in contracts.
pub struct TrialModel {
    /// Trial identity.
    pub id: TrialId,
    /// Owning study.
    pub study_id: StudyId,
    /// The sampled parameters.
    pub params: Assignment,
    /// Current lifecycle state.
    pub state: TrialState,
    /// Intermediate reports in step order.
    pub reports: Seq<ReportModel>,
    /// Final metrics, present once the trial completes.
    pub final_metrics: Option<Metrics>,
    /// The seed of the trial.
    pub seed: u64,
    /// The environment the trial was queued in.
    pub env: EnvModel,
    /// When the trial was queued, started and completed.
    pub timing: TrialTiming,
}

/// The model of optional metrics.
pub open spec fn metrics_model(m: Option<NamedMetrics>) -> Option<Metrics> {
    match m {
        Some(m) => Some(m@),
        None => None,
    }
}

impl View for TrialRecord {
    type V = TrialModel;

    open spec fn view(&self) -> TrialModel {
        TrialModel {
            id: self.id,
            study_id: self.study_id,
            params: self.params@,
            state: self.state,
            reports: models::of(self.intermediate@),
            final_metrics: metrics_model(self.final_metrics),
            seed: self.seed,
            env: self.env@,
            timing: self.timing,
        }
    }
}

impl TrialModel {
    /// The final value of `objective`.
    pub open spec fn value(self, objective: Seq<char>) -> Option<Scalar> {
        value_in(self.final_metrics, objective)
    }
}

/// Copies optional metrics.
pub fn clone_metrics(m: &Option<NamedMetrics>) -> (r: Option<NamedMetrics>)
    ensures
        metrics_model(r) == metrics_model(*m),
{
    match m {
        Some(m) => Some(m.clone()),
        None => None,
    }
}

/// Copies a list of reports.
pub fn clone_reports(items: &Vec<IntermediateReport>) -> (r: Vec<IntermediateReport>)
    ensures
        models::of(r@) == models::of(items@),
{
    let mut out: Vec<IntermediateReport> = Vec::new();
    let mut i: usize = 0;
    while i < items.len()
        invariant
            i <= items@.len(),
            out@.len() == i,
            forall|k: int| 0 <= k < i ==> (#[trigger] out@[k])@ == items@[k]@,
        decreases items@.len() - i,
    {
        out.push(items[i].clone());
        i += 1;
    }
    proof {
        assert(models::of(out@) =~= models::of(items@));
    }
    out
}

impl Clone for TrialRecord {
    fn clone(&self) -> (r: Self)
        ensures
            r@ == self@,
    {
        TrialRecord {
            id: self.id,
            study_id: self.study_id,
            params: self.params.clone(),
            state: self.state,
            intermediate: clone_reports(&self.intermediate),
            final_metrics: clone_metrics(&self.final_metrics),
            seed: self.seed,
            env: self.env.clone(),
            timing: self.timing,
        }
    }
}

impl TrialRecord {
    /// Create a fresh waiting trial record, its environment unknown and its clock at zero.
    pub fn new(id: TrialId, study_id: StudyId, params: ParamSet, seed: u64) -> (r: Self)
        ensures
            r@.id == id,
            r@.study_id == study_id,
            r@.params == params@,
            r@.state == TrialState::Waiting,
            r@.reports == Seq::<ReportModel>::empty(),
            r@.final_metrics is None,
            r@.seed == seed,
            r@.env == (EnvModel {
                os: Seq::empty(),
                arch: Seq::empty(),
                core_version: Seq::empty(),
            }),
            r@.timing == (TrialTiming {
                queued_at_ms: 0,
                started_at_ms: None,
                completed_at_ms: None,
            }),
    {
        let r = TrialRecord {
            id,
            study_id,
            params,
            state: TrialState::Waiting,
            intermediate: Vec::new(),
            final_metrics: None,
            seed,
            env: EnvSnapshot::unknown(),
            timing: TrialTiming::queued_at(0),
        };
        proof {
            assert(r@.reports =~= Seq::<ReportModel>::empty());
        }
        r
    }

    /// The most recent intermediate metrics, if any.
    pub fn last_intermediate(&self) -> (r: Option<&IntermediateReport>)
        ensures
            match r {
                Some(ir) => self@.reports.len() > 0 && ir@ == self@.reports.last(),
                None => self@.reports.len() == 0,
            },
    {
        last_report(&self.intermediate)
    }

    /// Value of a named objective at the final metrics, if present.
    pub fn final_value(&self, objective: &str) -> (r: Option<Scalar>)
        ensures
            r == self@.value(objective@),
    {
        match &self.final_metrics {
            Some(m) => m.get(objective),
            None => None,
        }
    }

    /// Wall-clock duration from start to completion, if both are recorded.
    pub fn wall_time_ms(&self) -> (r: Option<u64>)
        ensures
            r == self@.timing.wall_time(),
    {
        self.timing.wall_time_ms()
    }
}

fn last_report(reports: &Vec<IntermediateReport>) -> (r: Option<&IntermediateReport>)
    ensures
        match r {
            Some(ir) => reports@.len() > 0 && ir@ == models::of(reports@).last(),
            None => reports@.len() == 0,
        },
{
    if reports.len() == 0 {
        None
    } else {
        Some(&reports[reports.len() - 1])
    }
}

/// A running trial's progress, handed to a pruner.
#[derive(Debug)]
pub struct TrialProgress<'a> {
    /// Which trial is being evaluated.
    pub id: TrialId,
    /// The intermediate reports observed so far.
    pub intermediate: &'a Vec<IntermediateReport>,
}

impl<'a> TrialProgress<'a> {
    /// The reports observed so far.
    pub open spec fn reports(self) -> Seq<ReportModel> {
        models::of(self.intermediate@)
    }

    /// The latest step number reported, if any.
    pub fn last_step(&self) -> (r: Option<u64>)
        ensures
            r == (if self.reports().len() > 0 {
                Some(self.reports().last().step)
            } else {
                None::<u64>
            }),
    {
        match last_report(self.intermediate) {
            Some(r) => Some(r.step),
            None => None,
        }
    }

    /// The latest value for a named objective.
    pub fn last_value(&self, objective: &str) -> (r: Option<Scalar>)
        ensures
            r == (if self.reports().len() > 0 {
                value_in(Some(self.reports().last().metrics), objective@)
            } else {
                None::<Scalar>
            }),
    {
        match last_report(self.intermediate) {
            Some(r) => r.metrics.get(objective),
            None => None,
        }
    }

    /// The full metrics bag of the most recent report (all objectives at once).
    pub fn last_metrics(&self) -> (r: Option<&NamedMetrics>)
        ensures
            match r {
                Some(m) => self.reports().len() > 0 && m@ == self.reports().last().metrics,
                None => self.reports().len() == 0,
            },
    {
        match last_report(self.intermediate) {
            Some(r) => Some(&r.metrics),
            None => None,
        }
    }

    /// The value for a named objective at a specific step.
    pub fn value_at(&self, step: u64, objective: &str) -> (r: Option<Scalar>)
        ensures
            r == value_in(report_at(self.reports(), step), objective@),
    {
        match find_report(self.intermediate, step) {
            Some(r) => r.metrics.get(objective),
            None => None,
        }
    }
}

/// Read-only view of a study's trials, passed to samplers and pruners.
#[derive(Debug)]
pub struct TrialHistory {
    records: Vec<TrialRecord>,
}

/// The model of a history: its trials in insertion order.
pub type HistoryModel = Seq<TrialModel>;

impl View for TrialHistory {
    type V = HistoryModel;

    closed spec fn view(&self) -> HistoryModel {
        models::of(self.records@)
    }
}

/// Selects completed trials.
pub open spec fn if_complete() -> spec_fn(TrialModel) -> Option<TrialModel> {
    |t: TrialModel|
        if t.state == TrialState::Complete {
            Some(t)
        } else {
            None
        }
}

/// Selects the final values of completed trials.
pub open spec fn final_value_of(objective: Seq<char>) -> spec_fn(TrialModel) -> Option<Scalar> {
    |t: TrialModel|
        if t.state == TrialState::Complete {
            t.value(objective)
        } else {
            None
        }
}

/// Selects the metrics of settled trials at a step.
pub open spec fn settled_metrics_at(step: u64) -> spec_fn(TrialModel) -> Option<Metrics> {
    |t: TrialModel|
        if t.state.settled() {
            report_at(t.reports, step)
        } else {
            None
        }
}

/// Selects the values of completed trials at a step.
pub open spec fn completed_value_at(
    step: u64,
    objective: Seq<char>,
) -> spec_fn(TrialModel) -> Option<Scalar> {
    |t: TrialModel|
        if t.state == TrialState::Complete {
            value_in(report_at(t.reports, step), objective)
        } else {
            None
        }
}

/// Selects the values of settled trials at a step.
pub open spec fn settled_value_at(step: u64, objective: Seq<char>) -> spec_fn(TrialModel) -> Option<
    Scalar,
> {
    |t: TrialModel|
        if t.state.settled() {
            value_in(report_at(t.reports, step), objective)
        } else {
            None
        }
}

/// Copies a list of records.
pub fn clone_records(items: &Vec<TrialRecord>) -> (r: Vec<TrialRecord>)
    ensures
        models::of(r@) == models::of(items@),
{
    let mut out: Vec<TrialRecord> = Vec::new();
    let mut i: usize = 0;
    while i < items.len()
        invariant
            i <= items@.len(),
            out@.len() == i,
            forall|k: int| 0 <= k < i ==> (#[trigger] out@[k])@ == items@[k]@,
        decreases items@.len() - i,
    {
        out.push(items[i].clone());
        i += 1;
    }
    proof {
        assert(models::of(out@) =~= models::of(items@));
    }
    out
}

impl TrialHistory {
    /// Build a history from a set of records.
    pub fn new(records: Vec<TrialRecord>) -> (h: Self)
        ensures
            h@ == models::of(records@),
    {
        TrialHistory { records }
    }

    /// All records, in insertion order.
    pub fn records(&self) -> (r: &Vec<TrialRecord>)
        ensures
            models::of(r@) == self@,
            r@.len() == self@.len(),
            forall|i: int| 0 <= i < r@.len() ==> (#[trigger] r@[i])@ == self@[i],
    {
        &self.records
    }

    /// Number of trials recorded.
    pub fn len(&self) -> (n: usize)
        ensures
            n == self@.len(),
    {
        self.records.len()
    }

    /// Whether there are no trials yet.
    pub fn is_empty(&self) -> (r: bool)
        ensures
            r == (self@.len() == 0),
    {
        self.records.len() == 0
    }

    /// Only the completed trials, in order.
    pub fn completed(&self) -> (r: Vec<&TrialRecord>)
        ensures
            r@.map_values(|t: &TrialRecord| t@) == models::pick(self@, if_complete()),
    {
        let mut out: Vec<&TrialRecord> = Vec::new();
        let mut i: usize = 0;
        let ghost view = |t: &TrialRecord| t@;
        proof {
            assert(out@.map_values(view) =~= models::pick(self@.take(0), if_complete()));
        }
        while i < self.records.len()
            invariant
                i <= self@.len(),
                self@.len() == self.records@.len(),
                view == (|t: &TrialRecord| t@),
                out@.map_values(view) == models::pick(self@.take(i as int), if_complete()),
            decreases self.records@.len() - i,
        {
            let ghost before = out@;
            proof {
                models::pick_step(self@, i as int, if_complete());
                assert(self@[i as int] == self.records@[i as int]@);
            }
            if self.records[i].state == TrialState::Complete {
                out.push(&self.records[i]);
                proof {
                    assert(out@.map_values(view) =~= before.map_values(view).push(
                        self.records@[i as int]@,
                    ));
                }
            }
            i += 1;
        }
        proof {
            models::pick_whole(self@, if_complete());
        }
        out
    }

    /// The completed trials' final values for a named objective, in order.
    pub fn completed_values(&self, objective: &str) -> (r: Vec<Scalar>)
        ensures
            r@ == models::pick(self@, final_value_of(objective@)),
    {
        let mut out: Vec<Scalar> = Vec::new();
        let mut i: usize = 0;
        let ghost f = final_value_of(objective@);
        while i < self.records.len()
            invariant
                i <= self@.len(),
                self@.len() == self.records@.len(),
                f == final_value_of(objective@),
                out@ == models::pick(self@.take(i as int), f),
            decreases self.records@.len() - i,
        {
            proof {
                models::pick_step(self@, i as int, f);
                assert(self@[i as int] == self.records@[i as int]@);
            }
            if self.records[i].state == TrialState::Complete {
                if let Some(v) = self.records[i].final_value(objective) {
                    out.push(v);
                }
            }
            i += 1;
        }
        proof {
            models::pick_whole(self@, f);
        }
        out
    }

    /// Intermediate values reported by completed trials at a given step, used by the median
    /// pruner to build a per-step comparison distribution.
    pub fn intermediate_values_at(&self, step: u64, objective: &str) -> (r: Vec<Scalar>)
        ensures
            r@ == models::pick(self@, completed_value_at(step, objective@)),
    {
        let mut out: Vec<Scalar> = Vec::new();
        let mut i: usize = 0;
        let ghost f = completed_value_at(step, objective@);
        while i < self.records.len()
            invariant
                i <= self@.len(),
                self@.len() == self.records@.len(),
                f == completed_value_at(step, objective@),
                out@ == models::pick(self@.take(i as int), f),
            decreases self.records@.len() - i,
        {
            proof {
                models::pick_step(self@, i as int, f);
                assert(self@[i as int] == self.records@[i as int]@);
            }
            let rec = &self.records[i];
            if rec.state == TrialState::Complete {
                if let Some(ir) = find_report(&rec.intermediate, step) {
                    if let Some(v) = ir.metrics.get(objective) {
                        out.push(v);
                    }
                }
            }
            i += 1;
        }
        proof {
            models::pick_whole(self@, f);
        }
        out
    }

    /// Intermediate values reported by settled trials at a given step, completed and pruned
    /// ones alike: what successive halving ranks a trial among.
    pub fn settled_values_at(&self, step: u64, objective: &str) -> (r: Vec<Scalar>)
        ensures
            r@ == models::pick(self@, settled_value_at(step, objective@)),
    {
        let mut out: Vec<Scalar> = Vec::new();
        let mut i: usize = 0;
        let ghost f = settled_value_at(step, objective@);
        while i < self.records.len()
            invariant
                i <= self@.len(),
                self@.len() == self.records@.len(),
                f == settled_value_at(step, objective@),
                out@ == models::pick(self@.take(i as int), f),
            decreases self.records@.len() - i,
        {
            proof {
                models::pick_step(self@, i as int, f);
                assert(self@[i as int] == self.records@[i as int]@);
            }
            let rec = &self.records[i];
            if rec.state == TrialState::Complete || rec.state == TrialState::Pruned {
                if let Some(ir) = find_report(&rec.intermediate, step) {
                    if let Some(v) = ir.metrics.get(objective) {
                        out.push(v);
                    }
                }
            }
            i += 1;
        }
        proof {
            models::pick_whole(self@, f);
        }
        out
    }

    /// Full intermediate metrics bags reported by settled trials at a given step, used by the
    /// multi-objective pruner for dominance comparison.
    pub fn intermediate_metrics_at(&self, step: u64) -> (r: Vec<NamedMetrics>)
        ensures
            models::of(r@) == models::pick(self@, settled_metrics_at(step)),
    {
        let mut out: Vec<NamedMetrics> = Vec::new();
        let mut i: usize = 0;
        let ghost f = settled_metrics_at(step);
        proof {
            assert(models::of(out@) =~= models::pick(self@.take(0), f));
        }
        while i < self.records.len()
            invariant
                i <= self@.len(),
                self@.len() == self.records@.len(),
                f == settled_metrics_at(step),
                models::of(out@) == models::pick(self@.take(i as int), f),
            decreases self.records@.len() - i,
        {
            let ghost before = out@;
            proof {
                models::pick_step(self@, i as int, f);
                assert(self@[i as int] == self.records@[i as int]@);
            }
            let rec = &self.records[i];
            if rec.state == TrialState::Complete || rec.state == TrialState::Pruned {
                if let Some(ir) = find_report(&rec.intermediate, step) {
                    out.push(ir.metrics.clone());
                    proof {
                        assert(models::of(out@) =~= models::of(before).push(ir@.metrics));
                    }
                }
            }
            i += 1;
        }
        proof {
            models::pick_whole(self@, f);
        }
        out
    }
}

impl Clone for TrialHistory {
    fn clone(&self) -> (h: Self)
        ensures
            h@ == self@,
    {
        TrialHistory { records: clone_records(&self.records) }
    }
}

impl Default for TrialHistory {
    fn default() -> (h: Self)
        ensures
            h@ == HistoryModel::empty(),
    {
        let h = TrialHistory { records: Vec::new() };
        proof {
            assert(h@ =~= HistoryModel::empty());
        }
        h
    }
}

/// What a trial reported at a step is what its first report at that step holds.
pub proof fn law_report_at_is_the_first(reports: Seq<ReportModel>, step: u64)
    ensures
        report_at(reports, step) is None <==> forall|i: int|
            0 <= i < reports.len() ==> (#[trigger] reports[i]).step != step,
        forall|i: int|
            0 <= i < reports.len() && (#[trigger] reports[i]).step == step && (forall|j: int|
                0 <= j < i ==> (#[trigger] reports[j]).step != step) ==> report_at(reports, step)
                == Some(reports[i].metrics),
    decreases reports.len(),
{
    if reports.len() > 0 {
        let rest = reports.drop_first();
        law_report_at_is_the_first(rest, step);
        assert forall|i: int| 0 <= i < rest.len() implies rest[i] == reports[i + 1] by {}
        if reports[0].step != step {
            assert(report_at(reports, step) is None <==> forall|i: int|
                0 <= i < reports.len() ==> (#[trigger] reports[i]).step != step) by {
                if forall|i: int| 0 <= i < rest.len() ==> (#[trigger] rest[i]).step != step {
                    assert forall|i: int| 0 <= i < reports.len() implies (
                    #[trigger] reports[i]).step != step by {
                        if i > 0 {
                            assert(rest[i - 1].step != step);
                        }
                    }
                } else {
                    let i = choose|i: int| 0 <= i < rest.len() && (#[trigger] rest[i]).step == step;
                    assert(reports[i + 1].step == step);
                }
            }
            assert forall|i: int|
                0 <= i < reports.len() && (#[trigger] reports[i]).step == step && (forall|j: int|
                    0 <= j < i ==> (#[trigger] reports[j]).step != step) implies report_at(
                reports,
                step,
            ) == Some(reports[i].metrics) by {
                assert(rest[i - 1].step == step);
                assert forall|j: int| 0 <= j < i - 1 implies (#[trigger] rest[j]).step != step by {
                    assert(reports[j + 1].step != step);
                }
            }
        } else {
            assert(reports[0].step == step);
        }
    }
}

/// Whether a trial is complete with a value of `objective`.
pub open spec fn completed_with(objective: Seq<char>) -> spec_fn(TrialModel) -> bool {
    |t: TrialModel|
        t.state == TrialState::Complete && t.final_metrics is Some
            && t.final_metrics->0.contains_key(objective)
}

/// The completed values are those of the complete trials, and of no others.
pub proof fn law_completed_values_are_of_complete_trials(
    history: HistoryModel,
    objective: Seq<char>,
)
    ensures
        crate::models::pick(history, final_value_of(objective)) == history.filter(
            completed_with(objective),
        ).map_values(|t: TrialModel| t.final_metrics->0[objective]),
    decreases history.len(),
{
    reveal(Seq::filter);
    let value = |t: TrialModel| t.final_metrics->0[objective];
    let picked = crate::models::pick(history, final_value_of(objective));
    if history.len() > 0 {
        law_completed_values_are_of_complete_trials(history.drop_last(), objective);
        assert(picked =~= history.filter(completed_with(objective)).map_values(value));
    } else {
        assert(picked =~= history.filter(completed_with(objective)).map_values(value));
    }
}

} // verus!
