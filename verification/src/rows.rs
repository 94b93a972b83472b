//! Trials as rows of a relational database.
//!
//! Databases store signed 64-bit integers, and rows written under an older schema lack the
//! columns added since. This module holds how a record is laid out in a row and restored from
//! it, and which schema migrations are pending; running statements is the backend's.

use vstd::prelude::*;
use crate::error::Error;
use crate::metrics::NamedMetrics;
use crate::param::{Assignment, ParamSet};
use crate::provenance::{EnvModel, EnvSnapshot, TrialTiming};
use crate::storage::file_report;
use crate::trial::{
    clone_metrics, IntermediateReport, Metrics, ReportModel, StudyId, TrialId, TrialModel,
    TrialRecord, TrialState,
};
#[allow(unused_imports)]
use crate::models;
#[allow(unused_imports)]
use crate::storage;
#[allow(unused_imports)]
use crate::trial;

verus! {

/// A number as a database integer: the same 64 bits, read as signed.
pub fn to_integer(x: u64) -> (i: i64)
    ensures
        i == x as i64,
{
    x as i64
}

/// A database integer as a number: the same 64 bits, read as unsigned.
pub fn from_integer(i: i64) -> (x: u64)
    ensures
        x == i as u64,
{
    i as u64
}

/// Every number survives being stored.
pub proof fn law_numbers_survive(x: u64)
    ensures
        (x as i64) as u64 == x,
{
    assert((x as i64) as u64 == x) by (bit_vector);
}

/// Numbers below the sign bit keep their order as database integers.
pub proof fn law_numbers_keep_their_order(x: u64, y: u64)
    requires
        x <= i64::MAX,
        y <= i64::MAX,
    ensures
        (x as i64) < (y as i64) <==> x < y,
{
}

/// The columns of a trial. Columns that an older schema lacks are nothing.
#[derive(Debug)]
pub struct TrialRow {
    /// The study.
    pub study_id: i64,
    /// The parameters.
    pub params: ParamSet,
    /// The state.
    pub state: TrialState,
    /// The final metrics.
    pub final_metrics: Option<NamedMetrics>,
    /// The seed.
    pub seed: i64,
    /// The environment.
    pub env: Option<EnvSnapshot>,
    /// When the trial was queued.
    pub queued: Option<i64>,
    /// When it was started.
    pub started: Option<i64>,
    /// When it was completed.
    pub completed: Option<i64>,
}

/// What a [`TrialRow`] stands for in contracts.
pub struct RowModel {
    /// The study.
    pub study_id: i64,
    /// The parameters.
    pub params: Assignment,
    /// The state.
    pub state: TrialState,
    /// The final metrics.
    pub final_metrics: Option<Metrics>,
    /// The seed.
    pub seed: i64,
    /// The environment.
    pub env: Option<EnvModel>,
    /// When the trial was queued.
    pub queued: Option<i64>,
    /// When it was started.
    pub started: Option<i64>,
    /// When it was completed.
    pub completed: Option<i64>,
}

impl View for TrialRow {
    type V = RowModel;

    open spec fn view(&self) -> RowModel {
        RowModel {
            study_id: self.study_id,
            params: self.params@,
            state: self.state,
            final_metrics: trial::metrics_model(self.final_metrics),
            seed: self.seed,
            env: match self.env {
                Some(e) => Some(e@),
                None => None,
            },
            queued: self.queued,
            started: self.started,
            completed: self.completed,
        }
    }
}

/// A report as a row: its step and its metrics.
#[derive(Debug)]
pub struct ReportRow {
    /// The step.
    pub step: i64,
    /// The metrics.
    pub metrics: NamedMetrics,
}

/// What a [`ReportRow`] stands for in contracts.
pub struct ReportRowModel {
    /// The step.
    pub step: i64,
    /// The metrics.
    pub metrics: Metrics,
}

impl View for ReportRow {
    type V = ReportRowModel;

    open spec fn view(&self) -> ReportRowModel {
        ReportRowModel { step: self.step, metrics: self.metrics@ }
    }
}

/// A time that may be missing.
pub open spec fn time_of(t: Option<i64>) -> Option<u64> {
    match t {
        Some(v) => Some(v as u64),
        None => None,
    }
}

/// A time that may be missing, as a database integer.
pub open spec fn column_of(t: Option<u64>) -> Option<i64> {
    match t {
        Some(v) => Some(v as i64),
        None => None,
    }
}

/// The report that a row holds.
pub open spec fn report_of(r: ReportRowModel) -> ReportModel {
    ReportModel { step: r.step as u64, metrics: r.metrics }
}

/// The row that holds a report.
pub open spec fn report_row(r: ReportModel) -> ReportRowModel {
    ReportRowModel { step: r.step as i64, metrics: r.metrics }
}

/// The reports that rows hold, in the order of the rows.
pub open spec fn row_log(reports: Seq<ReportRowModel>) -> Seq<(u64, Metrics)> {
    reports.map_values(|r: ReportRowModel| (r.step as u64, r.metrics))
}

/// The record that rows hold, with its reports in step order whatever the order of their rows. An
/// unknown environment is empty, and an unknown queue time zero.
pub open spec fn restored(id: TrialId, row: RowModel, reports: Seq<ReportRowModel>) -> TrialModel {
    TrialModel {
        id,
        study_id: StudyId(row.study_id as u64),
        params: row.params,
        state: row.state,
        reports: storage::filed(Seq::empty(), row_log(reports)),
        final_metrics: row.final_metrics,
        seed: row.seed as u64,
        env: match row.env {
            Some(e) => e,
            None => EnvModel { os: Seq::empty(), arch: Seq::empty(), core_version: Seq::empty() },
        },
        timing: TrialTiming {
            queued_at_ms: match row.queued {
                Some(t) => t as u64,
                None => 0,
            },
            started_at_ms: time_of(row.started),
            completed_at_ms: time_of(row.completed),
        },
    }
}

/// The row that holds a record.
pub open spec fn laid_out(t: TrialModel) -> RowModel {
    RowModel {
        study_id: t.study_id.0 as i64,
        params: t.params,
        state: t.state,
        final_metrics: t.final_metrics,
        seed: t.seed as i64,
        env: Some(t.env),
        queued: Some(t.timing.queued_at_ms as i64),
        started: column_of(t.timing.started_at_ms),
        completed: column_of(t.timing.completed_at_ms),
    }
}

/// A record laid out in rows and restored is the same record.
pub proof fn law_rows_restore_the_record(t: TrialModel)
    requires
        storage::in_step_order(t.reports),
    ensures
        restored(t.id, laid_out(t), t.reports.map_values(|r: ReportModel| report_row(r))) == t,
{
    law_numbers_survive(t.study_id.0);
    law_numbers_survive(t.seed);
    law_numbers_survive(t.timing.queued_at_ms);
    if let Some(x) = t.timing.started_at_ms {
        law_numbers_survive(x);
    }
    if let Some(x) = t.timing.completed_at_ms {
        law_numbers_survive(x);
    }
    let rows = t.reports.map_values(|r: ReportModel| report_row(r));
    let log = t.reports.map_values(|r: ReportModel| (r.step, r.metrics));
    assert forall|i: int| 0 <= i < t.reports.len() implies row_log(rows)[i] == log[i] by {
        law_numbers_survive(t.reports[i].step);
    }
    assert(row_log(rows) =~= log);
    storage::law_filing_in_order_changes_nothing(t.reports);
}

/// Whatever the order in which the rows of its reports come, a trial reads back with its identity
/// and its reports in strictly increasing step order, exactly one for each row.
pub proof fn law_reports_read_back_in_step_order(
    id: TrialId,
    row: RowModel,
    reports: Seq<ReportRowModel>,
)
    requires
        forall|i: int, j: int|
            0 <= i < j < reports.len() ==> (#[trigger] reports[i]).step != (
            #[trigger] reports[j]).step,
    ensures
        restored(id, row, reports).id == id,
        restored(id, row, reports).study_id.0 == row.study_id as u64,
        restored(id, row, reports).seed == row.seed as u64,
        storage::in_step_order(restored(id, row, reports).reports),
        restored(id, row, reports).reports.len() == reports.len(),
        forall|i: int|
            0 <= i < reports.len() ==> restored(id, row, reports).reports.contains(
                report_of(#[trigger] reports[i]),
            ),
{
    let log = row_log(reports);
    assert forall|i: int, j: int| 0 <= i < j < log.len() implies (#[trigger] log[i]).0 != (
    #[trigger] log[j]).0 by {
        let (x, y) = (reports[i].step, reports[j].step);
        assert(x != y ==> x as u64 != y as u64) by (bit_vector);
    }
    storage::law_filing_keeps_step_order(Seq::empty(), log);
    storage::law_filing_keeps_every_report(log);
    assert forall|i: int| 0 <= i < reports.len() implies restored(
        id,
        row,
        reports,
    ).reports.contains(report_of(#[trigger] reports[i])) by {
        let e = log[i];
        assert(report_of(reports[i]) == (ReportModel { step: e.0, metrics: e.1 }));
    }
}

/// Lays a record out in a row.
pub fn lay_out(record: &TrialRecord) -> (row: TrialRow)
    ensures
        row@ == laid_out(record@),
{
    TrialRow {
        study_id: to_integer(record.study_id.0),
        params: record.params.clone(),
        state: record.state,
        final_metrics: clone_metrics(&record.final_metrics),
        seed: to_integer(record.seed),
        env: Some(record.env.clone()),
        queued: Some(to_integer(record.timing.queued_at_ms)),
        started: match record.timing.started_at_ms {
            Some(t) => Some(to_integer(t)),
            None => None,
        },
        completed: match record.timing.completed_at_ms {
            Some(t) => Some(to_integer(t)),
            None => None,
        },
    }
}

/// Restores the record of a trial from its row and the rows of its reports.
pub fn restore(id: TrialId, row: TrialRow, reports: Vec<ReportRow>) -> (record: TrialRecord)
    ensures
        record@ == restored(id, row@, models::of(reports@)),
{
    let ghost rm = models::of(reports@);
    let ghost log = row_log(rm);
    let mut intermediate: Vec<IntermediateReport> = Vec::new();
    let mut i: usize = 0;
    proof {
        assert(log.take(0) =~= Seq::<(u64, Metrics)>::empty());
        assert(models::of(intermediate@) =~= Seq::<ReportModel>::empty());
    }
    while i < reports.len()
        invariant
            i <= reports@.len(),
            rm == models::of(reports@),
            log == row_log(rm),
            models::of(intermediate@) == storage::filed(Seq::empty(), log.take(i as int)),
            storage::in_step_order(models::of(intermediate@)),
        decreases reports@.len() - i,
    {
        file_report(
            &mut intermediate,
            from_integer(reports[i].step),
            reports[i].metrics.clone(),
        );
        proof {
            assert(log.take(i + 1).drop_last() =~= log.take(i as int));
            assert(log.take(i + 1).last() == log[i as int]);
            assert(rm[i as int] == reports@[i as int]@);
        }
        i += 1;
    }
    proof {
        assert(log.take(i as int) =~= log);
    }
    let record = TrialRecord {
        id,
        study_id: StudyId(from_integer(row.study_id)),
        params: row.params,
        state: row.state,
        intermediate,
        final_metrics: row.final_metrics,
        seed: from_integer(row.seed),
        env: match row.env {
            Some(e) => e,
            None => EnvSnapshot::unknown(),
        },
        timing: TrialTiming {
            queued_at_ms: match row.queued {
                Some(t) => from_integer(t),
                None => 0,
            },
            started_at_ms: match row.started {
                Some(t) => Some(from_integer(t)),
                None => None,
            },
            completed_at_ms: match row.completed {
                Some(t) => Some(from_integer(t)),
                None => None,
            },
        },
    };
    record
}

/// Reads a trial from its row, if there is one, and the rows of its reports, in any order: a
/// trial without a row is unknown.
pub fn read_trial(id: TrialId, row: Option<TrialRow>, reports: Vec<ReportRow>) -> (r: Result<
    TrialRecord,
    Error,
>)
    ensures
        match row {
            Some(x) => r matches Ok(record) && record@ == restored(id, x@, models::of(reports@)),
            None => r matches Err(e) && storage::is_not_found(e, "trial"@, id.0),
        },
{
    match row {
        Some(x) => Ok(restore(id, x, reports)),
        None => Err(crate::storage::unknown_trial(id)),
    }
}

/// Whether an update that touched `affected` rows found its trial.
pub fn not_found_if_zero(affected: u64, trial: TrialId) -> (r: Result<(), Error>)
    ensures
        r is Ok <==> affected != 0,
        r matches Err(e) ==> storage::is_not_found(e, "trial"@, trial.0),
{
    if affected == 0 {
        Err(crate::storage::unknown_trial(trial))
    } else {
        Ok(())
    }
}

/// The migrations still to run: every version up to `shipped` above the recorded one, in order.
pub fn pending(current: i64, shipped: u32) -> (versions: Vec<i64>)
    ensures
        forall|i: int, j: int|
            0 <= i < j < versions@.len() ==> (#[trigger] versions@[i]) < (#[trigger] versions@[j]),
        forall|v: i64| #[trigger] versions@.contains(v) <==> 1 <= v <= shipped && v > current,
{
    let mut out: Vec<i64> = Vec::new();
    let mut v: i64 = 0;
    while v < shipped as i64
        invariant
            0 <= v <= shipped,
            forall|i: int, j: int|
                0 <= i < j < out@.len() ==> (#[trigger] out@[i]) < (#[trigger] out@[j]),
            forall|x: i64| #[trigger] out@.contains(x) <==> 1 <= x <= v && x > current,
        decreases shipped - v,
    {
        v += 1;
        let ghost before = out@;
        if v > current {
            out.push(v);
            proof {
                assert forall|i: int, j: int| 0 <= i < j < out@.len() implies (
                #[trigger] out@[i]) < (#[trigger] out@[j]) by {
                    if j == before.len() {
                        assert(before.contains(before[i]));
                    }
                }
                assert forall|x: i64| #[trigger] out@.contains(x) <==> 1 <= x <= v && x
                    > current by {
                    if before.contains(x) {
                        assert(out@[before.index_of(x)] == x);
                    }
                    if x == v {
                        assert(out@[before.len() as int] == x);
                    }
                    if out@.contains(x) && x != v {
                        assert(before[out@.index_of(x)] == x);
                    }
                }
            }
        }
    }
    out
}

/// Once every migration has run none is pending.
pub proof fn law_migrations_run_once(current: i64, shipped: u32, versions: Seq<i64>)
    requires
        current >= shipped,
        forall|v: i64| #[trigger] versions.contains(v) <==> 1 <= v <= shipped && v > current,
    ensures
        versions.len() == 0,
{
    if versions.len() > 0 {
        assert(versions.contains(versions[0]));
    }
}

} // verus!
