//! Storage: the `Storage` trait plus the in-memory backend.
//!
//! The store is authoritative for trial state. Reporting is keyed by `(trial, step)`: a retried
//! report at an existing step overwrites rather than appends, so a retry cannot double-count a
//! metric. Leases let several workers share one queue.

use vstd::prelude::*;
use crate::error::Error;
use crate::metrics::{Direction, NamedMetrics};
use crate::param::{Assignment, ParamSet};
use crate::provenance::{now_ms, EnvModel, TrialTiming};
use crate::trial::IntermediateReport;
use crate::trial::{
    HistoryModel, Metrics, ReportModel, StudyId, TrialHistory, TrialId, TrialModel, TrialRecord,
    TrialState,
};
#[allow(unused_imports)]
use crate::models;
#[allow(unused_imports)]
use crate::names;
#[allow(unused_imports)]
use crate::text;
#[allow(unused_imports)]
use crate::trial;

verus! {

/// Metadata describing a study, persisted at creation.
#[derive(Debug)]
pub struct StudyMeta {
    /// Human-readable study name.
    pub name: String,
    /// One direction per named objective. A single entry is a single-objective study.
    pub directions: Vec<(String, Direction)>,
    /// Name of the sampler used (provenance).
    pub sampler_name: String,
    /// Name of the pruner used (provenance).
    pub pruner_name: String,
}

/// What a [`StudyMeta`] stands for in contracts.
pub struct MetaModel {
    /// Study name.
    pub name: Seq<char>,
    /// One direction per named objective.
    pub directions: Seq<(Seq<char>, Direction)>,
    /// Sampler name.
    pub sampler_name: Seq<char>,
    /// Pruner name.
    pub pruner_name: Seq<char>,
}

/// The model of a list of directions.
pub open spec fn directions_model(d: Seq<(String, Direction)>) -> Seq<(Seq<char>, Direction)> {
    d.map_values(|p: (String, Direction)| (p.0@, p.1))
}

impl View for StudyMeta {
    type V = MetaModel;

    open spec fn view(&self) -> MetaModel {
        MetaModel {
            name: self.name@,
            directions: directions_model(self.directions@),
            sampler_name: self.sampler_name@,
            pruner_name: self.pruner_name@,
        }
    }
}

/// Copies a list of directions.
pub fn clone_directions(items: &Vec<(String, Direction)>) -> (r: Vec<(String, Direction)>)
    ensures
        r@ == items@,
{
    let mut out: Vec<(String, Direction)> = Vec::new();
    let mut i: usize = 0;
    while i < items.len()
        invariant
            i <= items@.len(),
            out@.len() == i,
            forall|k: int| 0 <= k < i ==> out@[k] == items@[k],
        decreases items@.len() - i,
    {
        out.push((items[i].0.clone(), items[i].1));
        i += 1;
    }
    proof {
        assert(out@ =~= items@);
    }
    out
}

impl Clone for StudyMeta {
    fn clone(&self) -> (m: Self)
        ensures
            m@ == self@,
    {
        StudyMeta {
            name: self.name.clone(),
            directions: clone_directions(&self.directions),
            sampler_name: self.sampler_name.clone(),
            pruner_name: self.pruner_name.clone(),
        }
    }
}

impl StudyMeta {
    /// Whether this is a multi-objective study.
    pub fn is_multi_objective(&self) -> (r: bool)
        ensures
            r == (self@.directions.len() > 1),
    {
        self.directions.len() > 1
    }

    /// The single objective's `(name, direction)` if this is single-objective.
    pub fn single_objective(&self) -> (r: Option<&(String, Direction)>)
        ensures
            match r {
                Some(o) => self@.directions.len() == 1 && (o.0@, o.1) == self@.directions[0],
                None => self@.directions.len() != 1,
            },
    {
        if self.directions.len() == 1 {
            Some(&self.directions[0])
        } else {
            None
        }
    }
}

/// Who works on a trial and until when.
pub struct LeaseModel {
    /// The worker that holds the trial.
    pub owner: Option<Seq<char>>,
    /// When the hold lapses.
    pub expiry: Option<u64>,
}

/// A trial together with its lease.
pub struct SlotModel {
    /// The trial.
    pub record: TrialModel,
    /// Its lease.
    pub lease: LeaseModel,
}

/// A study: its metadata and its trials in the order in which they were enqueued.
pub struct StudyModel {
    /// Metadata.
    pub meta: MetaModel,
    /// Trials in enqueue order.
    pub trials: Seq<TrialId>,
}

/// Everything a store holds.
pub struct StoreModel {
    /// Studies by id.
    pub studies: Map<StudyId, StudyModel>,
    /// Trials by id.
    pub trials: Map<TrialId, SlotModel>,
    /// Artifacts by trial id and name.
    pub artifacts: Map<(TrialId, Seq<char>), Seq<u8>>,
}

/// The reports after `metrics` came in at `step`: an earlier report at that step is replaced,
/// otherwise the new one is put in step order.
pub open spec fn upsert(reports: Seq<ReportModel>, step: u64, metrics: Metrics) -> Seq<ReportModel>
    decreases reports.len(),
{
    let new = ReportModel { step, metrics };
    if reports.len() == 0 {
        seq![new]
    } else if reports[0].step == step {
        seq![new] + reports.drop_first()
    } else if step < reports[0].step {
        seq![new] + reports
    } else {
        seq![reports[0]] + upsert(reports.drop_first(), step, metrics)
    }
}

/// Whether reports are in strictly increasing step order.
pub open spec fn in_step_order(reports: Seq<ReportModel>) -> bool {
    forall|i: int, j: int|
        0 <= i < j < reports.len() ==> (#[trigger] reports[i]).step < (#[trigger] reports[j]).step
}

/// Where a report at `step` belongs.
pub proof fn upsert_at(reports: Seq<ReportModel>, step: u64, metrics: Metrics, at: int)
    requires
        0 <= at <= reports.len(),
        forall|k: int| 0 <= k < at ==> (#[trigger] reports[k]).step < step,
        at < reports.len() ==> step <= reports[at].step,
    ensures
        upsert(reports, step, metrics) == if at < reports.len() && reports[at].step == step {
            reports.update(at, (ReportModel { step, metrics }))
        } else {
            reports.insert(at, (ReportModel { step, metrics }))
        },
    decreases reports.len(),
{
    let new = ReportModel { step, metrics };
    if at == 0 {
        if reports.len() == 0 {
            assert(reports.insert(0, new) =~= seq![new]);
        } else if reports[0].step == step {
            assert(reports.update(0, new) =~= seq![new] + reports.drop_first());
        } else {
            assert(reports.insert(0, new) =~= seq![new] + reports);
        }
    } else {
        assert(reports[0].step < step);
        let rest = reports.drop_first();
        assert forall|k: int| 0 <= k < at - 1 implies (#[trigger] rest[k]).step < step by {
            assert(rest[k] == reports[k + 1]);
        }
        upsert_at(rest, step, metrics, at - 1);
        if at < reports.len() && reports[at].step == step {
            assert(reports.update(at, new) =~= seq![reports[0]] + rest.update(at - 1, new));
        } else {
            assert(reports.insert(at, new) =~= seq![reports[0]] + rest.insert(at - 1, new));
        }
    }
}

proof fn upsert_position(reports: Seq<ReportModel>, step: u64) -> (at: int)
    requires
        in_step_order(reports),
    ensures
        0 <= at <= reports.len(),
        forall|k: int| 0 <= k < at ==> (#[trigger] reports[k]).step < step,
        at < reports.len() ==> step <= reports[at].step,
    decreases reports.len(),
{
    if reports.len() == 0 || step <= reports[0].step {
        0
    } else {
        let rest = reports.drop_first();
        let at = upsert_position(rest, step);
        assert forall|k: int| 0 <= k < at + 1 implies (#[trigger] reports[k]).step < step by {
            if k > 0 {
                assert(rest[k - 1] == reports[k]);
            }
        }
        at + 1
    }
}

/// What is on file after reports were taken in order.
pub open spec fn filed(reports: Seq<ReportModel>, log: Seq<(u64, Metrics)>) -> Seq<ReportModel>
    decreases log.len(),
{
    if log.len() == 0 {
        reports
    } else {
        upsert(filed(reports, log.drop_last()), log.last().0, log.last().1)
    }
}

/// Reports stay in step order.
pub proof fn law_reports_stay_in_step_order(reports: Seq<ReportModel>, step: u64, metrics: Metrics)
    requires
        in_step_order(reports),
    ensures
        in_step_order(upsert(reports, step, metrics)),
{
    let at = upsert_position(reports, step);
    upsert_at(reports, step, metrics, at);
    let after = upsert(reports, step, metrics);
    if !(at < reports.len() && reports[at].step == step) {
        assert forall|i: int, j: int| 0 <= i < j < after.len() implies (#[trigger] after[i]).step
            < (#[trigger] after[j]).step by {
            let p = if i < at {
                i
            } else {
                i - 1
            };
            let q = if j < at {
                j
            } else {
                j - 1
            };
            if i != at {
                assert(after[i] == reports[p]);
            }
            if j != at {
                assert(after[j] == reports[q]);
            }
            if i == at && q > at {
                assert(reports[at].step < reports[q].step);
            }
        }
    }
}

/// Whatever reports are taken, in whatever order, they are on file in step order.
pub proof fn law_filing_keeps_step_order(reports: Seq<ReportModel>, log: Seq<(u64, Metrics)>)
    requires
        in_step_order(reports),
    ensures
        in_step_order(filed(reports, log)),
    decreases log.len(),
{
    if log.len() > 0 {
        law_filing_keeps_step_order(reports, log.drop_last());
        law_reports_stay_in_step_order(
            filed(reports, log.drop_last()),
            log.last().0,
            log.last().1,
        );
    }
}

/// Reports at different steps are each on file once, and nothing else is.
pub proof fn law_filing_keeps_every_report(log: Seq<(u64, Metrics)>)
    requires
        forall|i: int, j: int|
            0 <= i < j < log.len() ==> (#[trigger] log[i]).0 != (#[trigger] log[j]).0,
    ensures
        filed(Seq::empty(), log).len() == log.len(),
        forall|i: int|
            0 <= i < log.len() ==> filed(Seq::empty(), log).contains(
                (ReportModel { step: (#[trigger] log[i]).0, metrics: log[i].1 }),
            ),
    decreases log.len(),
{
    let none = Seq::<ReportModel>::empty();
    if log.len() > 0 {
        let rest = log.drop_last();
        assert forall|i: int, j: int| 0 <= i < j < rest.len() implies (#[trigger] rest[i]).0 != (
        #[trigger] rest[j]).0 by {
            assert(log[i].0 != log[j].0);
        }
        law_filing_keeps_every_report(rest);
        law_filing_keeps_step_order(none, rest);
        let before = filed(none, rest);
        let (step, metrics) = log.last();
        let at = upsert_position(before, step);
        upsert_at(before, step, metrics, at);
        if at < before.len() && before[at].step == step {
            let i = filed_step_is_logged(rest, at);
            assert(log[i].0 != log[log.len() - 1].0);
        }
        let after = filed(none, log);
        let new = ReportModel { step, metrics };
        assert(after == before.insert(at, new));
        assert forall|i: int| 0 <= i < log.len() implies after.contains(
            (ReportModel { step: (#[trigger] log[i]).0, metrics: log[i].1 }),
        ) by {
            if i < rest.len() {
                let r = ReportModel { step: rest[i].0, metrics: rest[i].1 };
                let k = before.index_of(r);
                if k < at {
                    assert(after[k] == r);
                } else {
                    assert(after[k + 1] == r);
                }
            } else {
                assert(after[at] == new);
            }
        }
    }
}

proof fn filed_step_is_logged(log: Seq<(u64, Metrics)>, k: int) -> (i: int)
    requires
        0 <= k < filed(Seq::empty(), log).len(),
    ensures
        0 <= i < log.len(),
        log[i].0 == filed(Seq::empty(), log)[k].step,
    decreases log.len(),
{
    let none = Seq::<ReportModel>::empty();
    let rest = log.drop_last();
    law_filing_keeps_step_order(none, rest);
    let before = filed(none, rest);
    let (step, metrics) = log.last();
    let at = upsert_position(before, step);
    upsert_at(before, step, metrics, at);
    let after = filed(none, log);
    if after[k].step == step {
        log.len() - 1
    } else {
        let j = if k < at || (at < before.len() && before[at].step == step) {
            k
        } else {
            k - 1
        };
        assert(after[k] == before[j]);
        filed_step_is_logged(rest, j)
    }
}

/// Reports that are in step order are on file as they are.
pub proof fn law_filing_in_order_changes_nothing(reports: Seq<ReportModel>)
    requires
        in_step_order(reports),
    ensures
        filed(
            Seq::empty(),
            reports.map_values(|r: ReportModel| (r.step, r.metrics)),
        ) == reports,
    decreases reports.len(),
{
    let f = |r: ReportModel| (r.step, r.metrics);
    let log = reports.map_values(f);
    if reports.len() > 0 {
        let rest = reports.drop_last();
        law_filing_in_order_changes_nothing(rest);
        assert(log.drop_last() =~= rest.map_values(f));
        let last = reports.last();
        upsert_at(rest, last.step, last.metrics, rest.len() as int);
        assert(rest.insert(rest.len() as int, last) =~= reports);
    } else {
        assert(log =~= Seq::<(u64, Metrics)>::empty());
    }
}

/// Records a report: in place of the one at the same step, or where its step belongs.
pub fn file_report(reports: &mut Vec<IntermediateReport>, step: u64, metrics: NamedMetrics)
    requires
        in_step_order(models::of(old(reports)@)),
    ensures
        models::of(final(reports)@) == upsert(models::of(old(reports)@), step, metrics@),
        in_step_order(models::of(final(reports)@)),
{
    let ghost before = models::of(reports@);
    let mut at: usize = 0;
    while at < reports.len() && reports[at].step < step
        invariant
            *reports == *old(reports),
            before == models::of(reports@),
            at <= reports@.len(),
            forall|k: int| 0 <= k < at ==> (#[trigger] before[k]).step < step,
        decreases reports@.len() - at,
    {
        proof {
            assert(before[at as int].step == reports@[at as int].step);
        }
        at += 1;
    }
    proof {
        upsert_at(before, step, metrics@, at as int);
        law_reports_stay_in_step_order(before, step, metrics@);
    }
    if at < reports.len() && reports[at].step == step {
        reports[at].metrics = metrics;
    } else {
        reports.insert(at, IntermediateReport { step, metrics });
    }
    proof {
        assert(models::of(reports@) =~= upsert(before, step, metrics@));
    }
}

/// A retried report cannot double-count: reporting twice at one step leaves the later metrics
/// alone at that step.
pub proof fn law_report_is_idempotent_by_step(
    reports: Seq<ReportModel>,
    step: u64,
    first: Metrics,
    second: Metrics,
)
    ensures
        upsert(upsert(reports, step, first), step, second) == upsert(reports, step, second),
    decreases reports.len(),
{
    let new = ReportModel { step, metrics: second };
    let once = upsert(reports, step, first);
    if reports.len() == 0 {
        assert(once.drop_first() =~= Seq::<ReportModel>::empty());
        assert(seq![new] + Seq::<ReportModel>::empty() =~= seq![new]);
    } else if reports[0].step == step {
        assert(once.drop_first() =~= reports.drop_first());
    } else if step < reports[0].step {
        assert(once.drop_first() =~= reports);
    } else {
        law_report_is_idempotent_by_step(reports.drop_first(), step, first, second);
        assert(once.drop_first() =~= upsert(reports.drop_first(), step, first));
    }
}

impl StoreModel {
    /// The store with a study added.
    pub open spec fn with_study(self, id: StudyId, meta: MetaModel) -> StoreModel {
        StoreModel {
            studies: self.studies.insert(id, (StudyModel { meta, trials: Seq::empty() })),
            ..self
        }
    }

    /// The store with the slot of `trial` replaced.
    pub open spec fn with_slot(self, trial: TrialId, slot: SlotModel) -> StoreModel {
        StoreModel { trials: self.trials.insert(trial, slot), ..self }
    }

    /// The store with the record of `trial` replaced.
    pub open spec fn with_record(self, trial: TrialId, record: TrialModel) -> StoreModel {
        self.with_slot(trial, (SlotModel { record, ..self.trials[trial] }))
    }

    /// The store with a waiting trial appended to a study.
    pub open spec fn enqueued(
        self,
        id: TrialId,
        study: StudyId,
        params: Assignment,
        seed: u64,
        env: EnvModel,
        now: u64,
    ) -> StoreModel {
        let record = TrialModel {
            id,
            study_id: study,
            params,
            state: TrialState::Waiting,
            reports: Seq::empty(),
            final_metrics: None,
            seed,
            env,
            timing: TrialTiming { queued_at_ms: now, started_at_ms: None, completed_at_ms: None },
        };
        let entry = self.studies[study];
        StoreModel {
            studies: self.studies.insert(
                study,
                (StudyModel { trials: entry.trials.push(id), ..entry }),
            ),
            trials: self.trials.insert(
                id,
                (SlotModel {
                    record,
                    lease: LeaseModel { owner: None, expiry: None },
                }),
            ),
            ..self
        }
    }

    /// The store with `trial` running since `now`.
    pub open spec fn started(self, trial: TrialId, now: u64) -> StoreModel {
        let r = self.trials[trial].record;
        self.with_record(
            trial,
            (TrialModel {
                state: TrialState::Running,
                timing: TrialTiming { started_at_ms: Some(now), ..r.timing },
                ..r
            }),
        )
    }

    /// The store with a report taken.
    pub open spec fn reported(self, trial: TrialId, step: u64, metrics: Metrics) -> StoreModel {
        let r = self.trials[trial].record;
        self.with_record(
            trial,
            (TrialModel { reports: upsert(r.reports, step, metrics), ..r }),
        )
    }

    /// The store with `trial` finished at `now`.
    pub open spec fn finished(
        self,
        trial: TrialId,
        state: TrialState,
        final_metrics: Option<Metrics>,
        now: u64,
    ) -> StoreModel {
        let r = self.trials[trial].record;
        self.with_record(
            trial,
            (TrialModel {
                state,
                final_metrics,
                timing: TrialTiming { completed_at_ms: Some(now), ..r.timing },
                ..r
            }),
        )
    }

    /// The store with an artifact of `trial` stored.
    pub open spec fn with_artifact(
        self,
        trial: TrialId,
        name: Seq<char>,
        bytes: Seq<u8>,
    ) -> StoreModel {
        StoreModel { artifacts: self.artifacts.insert((trial, name), bytes), ..self }
    }

    /// The trials of a study in enqueue order.
    pub open spec fn history(self, study: StudyId) -> HistoryModel {
        self.studies[study].trials.map_values(|t: TrialId| self.trials[t].record)
    }

    /// Whether `trial` may be claimed at `now`: it waits, or its worker let the lease lapse.
    pub open spec fn claimable(self, trial: TrialId, now: u64) -> bool {
        let s = self.trials[trial];
        s.record.state == TrialState::Waiting || (s.record.state == TrialState::Running && (
        s.lease.expiry matches Some(e) ==> e <= now))
    }

    /// Whether `trial` runs under a lease that has lapsed by `now`.
    pub open spec fn orphaned(self, trial: TrialId, now: u64) -> bool {
        let s = self.trials[trial];
        s.record.state == TrialState::Running && (s.lease.expiry matches Some(e) && e <= now)
    }

    /// The store with `trial` claimed by `owner` until `expiry`.
    pub open spec fn claimed(
        self,
        trial: TrialId,
        owner: Seq<char>,
        now: u64,
        expiry: u64,
    ) -> StoreModel {
        let s = self.trials[trial];
        let started = match s.record.timing.started_at_ms {
            Some(t) => t,
            None => now,
        };
        self.with_slot(
            trial,
            (SlotModel {
                record: TrialModel {
                    state: TrialState::Running,
                    timing: TrialTiming { started_at_ms: Some(started), ..s.record.timing },
                    ..s.record
                },
                lease: LeaseModel { owner: Some(owner), expiry: Some(expiry) },
                ..s
            }),
        )
    }

    /// Whether `owner` holds the lease of `trial`.
    pub open spec fn held_by(self, trial: TrialId, owner: Seq<char>) -> bool {
        self.trials.contains_key(trial) && self.trials[trial].lease.owner == Some(owner)
    }

    /// The store with the lease of `trial` extended.
    pub open spec fn renewed(self, trial: TrialId, expiry: u64) -> StoreModel {
        let s = self.trials[trial];
        self.with_slot(
            trial,
            (SlotModel { lease: LeaseModel { expiry: Some(expiry), ..s.lease }, ..s }),
        )
    }

    /// The orphans of a study at `now`.
    pub open spec fn orphans(self, study: StudyId, now: u64) -> Set<TrialId> {
        Set::new(
            |t: TrialId|
                self.trials.contains_key(t) && self.trials[t].record.study_id == study
                    && self.orphaned(t, now),
        )
    }

    /// The store with the orphans of a study back in the queue.
    pub open spec fn recovered(self, study: StudyId, now: u64) -> StoreModel {
        StoreModel {
            trials: Map::new(
                |t: TrialId| self.trials.contains_key(t),
                |t: TrialId|
                    {
                        let s = self.trials[t];
                        if self.orphans(study, now).contains(t) {
                            SlotModel {
                                record: TrialModel { state: TrialState::Waiting, ..s.record },
                                lease: LeaseModel { owner: None, ..s.lease },
                                ..s
                            }
                        } else {
                            s
                        }
                    },
            ),
            ..self
        }
    }

    /// Whether the studies list known trials, each once and under its own study.
    pub open spec fn consistent(self) -> bool {
        &&& forall|s: StudyId, i: int|
            #![trigger self.studies[s].trials[i]]
            self.studies.contains_key(s) && 0 <= i < self.studies[s].trials.len()
                ==> self.trials.contains_key(self.studies[s].trials[i])
                && self.trials[self.studies[s].trials[i]].record.study_id == s
        &&& forall|s: StudyId, i: int, j: int|
            #![trigger self.studies[s].trials[i], self.studies[s].trials[j]]
            self.studies.contains_key(s) && 0 <= i < j < self.studies[s].trials.len()
                ==> self.studies[s].trials[i] != self.studies[s].trials[j]
    }

    /// Whether `t` is the first claimable trial of `study` at `now`.
    pub open spec fn next_claim(self, study: StudyId, now: u64, t: TrialId) -> bool {
        &&& self.studies.contains_key(study)
        &&& exists|i: int|
            #![trigger self.studies[study].trials[i]]
            0 <= i < self.studies[study].trials.len() && self.studies[study].trials[i] == t
                && self.claimable(t, now) && forall|j: int|
                0 <= j < i ==> !self.claimable(#[trigger] self.studies[study].trials[j], now)
    }

    /// Whether `study` has nothing to claim at `now`.
    pub open spec fn nothing_to_claim(self, study: StudyId, now: u64) -> bool {
        self.studies.contains_key(study) ==> forall|j: int|
            0 <= j < self.studies[study].trials.len() ==> !self.claimable(
                #[trigger] self.studies[study].trials[j],
                now,
            )
    }
}

/// Whether the store `b` is `a` with trials added behind those of `study`: every other study, the
/// study's own description, every trial that was there and all artifacts are as they were.
pub open spec fn only_added(a: StoreModel, b: StoreModel, study: StudyId) -> bool {
    &&& b.artifacts == a.artifacts
    &&& b.studies.dom() == a.studies.dom()
    &&& forall|s: StudyId|
        s != study && a.studies.contains_key(s) ==> #[trigger] b.studies[s] == a.studies[s]
    &&& b.studies[study].meta == a.studies[study].meta
    &&& a.studies[study].trials.is_prefix_of(b.studies[study].trials)
    &&& forall|t: TrialId| #[trigger]
        a.trials.contains_key(t) ==> b.trials.contains_key(t) && b.trials[t] == a.trials[t]
    &&& forall|t: TrialId| #[trigger]
        b.trials.contains_key(t) && !a.trials.contains_key(t) ==> b.studies[study].trials.contains(
            t,
        )
}

/// Whether the store `b` is `a` with nothing changed but some of the given trials.
pub open spec fn only_touched(a: StoreModel, b: StoreModel, trials: Seq<TrialId>) -> bool {
    &&& b == (StoreModel { trials: b.trials, ..a })
    &&& b.trials.dom() == a.trials.dom()
    &&& forall|t: TrialId|
        a.trials.contains_key(t) && !trials.contains(t) ==> #[trigger] b.trials[t] == a.trials[t]
}

/// Adding trials twice adds trials.
pub proof fn adding_goes_on(a: StoreModel, b: StoreModel, c: StoreModel, study: StudyId)
    requires
        only_added(a, b, study),
        only_added(b, c, study),
    ensures
        only_added(a, c, study),
{
    let (x, y, z) = (a.studies[study].trials, b.studies[study].trials, c.studies[study].trials);
    assert(y =~= z.subrange(0, y.len() as int));
    assert(x =~= y.subrange(0, x.len() as int));
    assert(x =~= z.subrange(0, x.len() as int));
    assert forall|s: StudyId| s != study && a.studies.contains_key(s) implies
        #[trigger] c.studies[s] == a.studies[s] by {
        assert(b.studies.contains_key(s));
        assert(b.studies[s] == a.studies[s]);
    }
    assert forall|t: TrialId| #[trigger]
        c.trials.contains_key(t) && !a.trials.contains_key(t) implies z.contains(t) by {
        if b.trials.contains_key(t) {
            let i = y.index_of(t);
            assert(z[i] == t);
        }
    }
}

/// Changing trials that were added leaves them added.
pub proof fn added_trials_may_change(
    a: StoreModel,
    b: StoreModel,
    c: StoreModel,
    study: StudyId,
    trials: Seq<TrialId>,
)
    requires
        only_added(a, b, study),
        only_touched(b, c, trials),
        forall|i: int| 0 <= i < trials.len() ==> !a.trials.contains_key(#[trigger] trials[i]),
    ensures
        only_added(a, c, study),
{
    assert forall|t: TrialId| #[trigger] a.trials.contains_key(t) implies c.trials.contains_key(t)
        && c.trials[t] == a.trials[t] by {
        if trials.contains(t) {
            let i = trials.index_of(t);
            assert(!a.trials.contains_key(trials[i]));
        }
        assert(b.trials.contains_key(t));
        assert(b.trials.dom().contains(t));
        assert(c.trials.dom().contains(t));
    }
    assert forall|t: TrialId| #[trigger]
        c.trials.contains_key(t) && !a.trials.contains_key(t) implies c.studies[study].trials.contains(
        t,
    ) by {
        assert(c.trials.dom().contains(t));
        assert(b.trials.contains_key(t));
    }
}

/// `e` says that the `kind` numbered `n` is not in the store.
pub open spec fn is_not_found(e: Error, kind: Seq<char>, n: u64) -> bool {
    e matches Error::NotFound { kind: k, id } && k@ == kind && id@ == kind + "#"@ + text::decimal(
        n as nat,
    )
}

/// The error for a trial that a store does not hold.
pub fn unknown_trial(trial: TrialId) -> (e: Error)
    ensures
        is_not_found(e, "trial"@, trial.0),
{
    let id = trial.label();
    proof {
        reveal_strlit("trial#");
        reveal_strlit("trial");
        reveal_strlit("#");
        assert("trial#"@ =~= "trial"@ + "#"@);
    }
    Error::NotFound { kind: "trial", id }
}

/// The error for a study that a store does not hold.
pub fn unknown_study(study: StudyId) -> (e: Error)
    ensures
        is_not_found(e, "study"@, study.0),
{
    let id = study.label();
    proof {
        reveal_strlit("study#");
        reveal_strlit("study");
        reveal_strlit("#");
        assert("study#"@ =~= "study"@ + "#"@);
    }
    Error::NotFound { kind: "study", id }
}

/// Persists studies, trials, metrics and provenance. A call that fails leaves the store as it
/// was; a dependable store fails only on ids that it does not hold.
pub trait Storage {
    /// Everything the store holds.
    spec fn model(&self) -> StoreModel;

    /// Whether calls on known ids succeed.
    spec fn dependable(&self) -> bool;

    /// Whether the store takes artifacts of `trial` though it may not hold the trial.
    spec fn takes_artifacts_of(&self, trial: TrialId) -> bool;

    /// Create a study and return its id.
    fn create_study(&mut self, meta: StudyMeta) -> (r: Result<StudyId, Error>)
        ensures
            final(self).dependable() == old(self).dependable(),
            old(self).dependable() ==> r is Ok,
            match r {
                Ok(id) => !old(self).model().studies.contains_key(id) && final(self).model()
                    == old(self).model().with_study(id, meta@),
                Err(_) => final(self).model() == old(self).model(),
            },
    ;

    /// Enqueue a trial with sampled parameters, returning its id.
    fn enqueue_trial(&mut self, study: StudyId, params: ParamSet, seed: u64) -> (r: Result<
        TrialId,
        Error,
    >)
        ensures
            final(self).dependable() == old(self).dependable(),
            old(self).dependable() && old(self).model().studies.contains_key(study) ==> r is Ok,
            match r {
                Ok(id) => old(self).model().studies.contains_key(study)
                    && !old(self).model().trials.contains_key(id) && exists|
                    env: EnvModel,
                    now: u64,
                |
                    final(self).model() == #[trigger] old(self).model().enqueued(
                        id,
                        study,
                        params@,
                        seed,
                        env,
                        now,
                    ),
                Err(_) => final(self).model() == old(self).model(),
            },
    ;

    /// Transition a trial to running.
    fn start_trial(&mut self, trial: TrialId) -> (r: Result<(), Error>)
        ensures
            final(self).dependable() == old(self).dependable(),
            old(self).dependable() && old(self).model().trials.contains_key(trial) ==> r is Ok,
            match r {
                Ok(_) => old(self).model().trials.contains_key(trial) && exists|now: u64|
                    final(self).model() == #[trigger] old(self).model().started(trial, now),
                Err(_) => final(self).model() == old(self).model(),
            },
    ;

    /// Record an intermediate metric report, keyed idempotently by `(trial, step)`.
    fn report(&mut self, trial: TrialId, step: u64, metrics: NamedMetrics) -> (r: Result<
        (),
        Error,
    >)
        ensures
            final(self).dependable() == old(self).dependable(),
            old(self).dependable() && old(self).model().trials.contains_key(trial) ==> r is Ok,
            match r {
                Ok(_) => old(self).model().trials.contains_key(trial) && final(self).model()
                    == old(self).model().reported(trial, step, metrics@),
                Err(_) => final(self).model() == old(self).model(),
            },
    ;

    /// Finalize a trial with a terminal state and optional final metrics.
    fn complete(
        &mut self,
        trial: TrialId,
        state: TrialState,
        final_metrics: Option<NamedMetrics>,
    ) -> (r: Result<(), Error>)
        ensures
            final(self).dependable() == old(self).dependable(),
            old(self).dependable() && old(self).model().trials.contains_key(trial) ==> r is Ok,
            match r {
                Ok(_) => old(self).model().trials.contains_key(trial) && exists|now: u64|
                    final(self).model() == #[trigger] old(self).model().finished(
                        trial,
                        state,
                        trial::metrics_model(final_metrics),
                        now,
                    ),
                Err(_) => final(self).model() == old(self).model(),
            },
    ;

    /// Load one trial record.
    fn load_trial(&self, trial: TrialId) -> (r: Result<TrialRecord, Error>)
        ensures
            self.dependable() && self.model().trials.contains_key(trial) ==> r is Ok,
            r matches Ok(rec) ==> self.model().trials.contains_key(trial) && rec@
                == self.model().trials[trial].record,
    ;

    /// Load the full trial history for a study.
    fn load_history(&self, study: StudyId) -> (r: Result<TrialHistory, Error>)
        ensures
            self.dependable() && self.model().studies.contains_key(study) ==> r is Ok,
            r matches Ok(h) ==> self.model().studies.contains_key(study) && h@
                == self.model().history(study),
    ;

    /// Load a study's metadata.
    fn load_meta(&self, study: StudyId) -> (r: Result<StudyMeta, Error>)
        ensures
            self.dependable() && self.model().studies.contains_key(study) ==> r is Ok,
            r matches Ok(m) ==> self.model().studies.contains_key(study) && m@
                == self.model().studies[study].meta,
    ;

    /// Store a binary artifact of a trial under a name, replacing an earlier one.
    fn save_artifact(&mut self, trial: TrialId, name: &str, bytes: Vec<u8>) -> (r: Result<
        (),
        Error,
    >)
        ensures
            final(self).dependable() == old(self).dependable(),
            old(self).dependable() && (old(self).model().trials.contains_key(trial) || old(
                self,
            ).takes_artifacts_of(trial)) ==> r is Ok,
            match r {
                Ok(_) => final(self).model() == old(self).model().with_artifact(
                    trial,
                    name@,
                    bytes@,
                ),
                Err(_) => final(self).model() == old(self).model(),
            },
    ;

    /// Load an artifact of a trial by name.
    fn load_artifact(&self, trial: TrialId, name: &str) -> (r: Result<Option<Vec<u8>>, Error>)
        ensures
            self.dependable() ==> r is Ok,
            r matches Ok(Some(b)) ==> self.model().artifacts.contains_key((trial, name@)) && b@
                == self.model().artifacts[(trial, name@)],
            r matches Ok(None) ==> !self.model().artifacts.contains_key((trial, name@)),
    ;

    /// The names of a trial's artifacts, sorted.
    fn list_artifacts(&self, trial: TrialId) -> (r: Result<Vec<String>, Error>)
        ensures
            self.dependable() ==> r is Ok,
            r matches Ok(names) ==> sorted_names(names@) && forall|name: Seq<char>|
                #[trigger] models::of(names@).contains(name)
                    <==> self.model().artifacts.contains_key((trial, name)),
    ;

    /// Claim the first claimable trial of a study for `owner` until `lease_expiry_ms`.
    fn claim_trial(
        &mut self,
        study: StudyId,
        owner: &str,
        now_ms: u64,
        lease_expiry_ms: u64,
    ) -> (r: Result<Option<TrialId>, Error>)
        ensures
            final(self).dependable() == old(self).dependable(),
            old(self).dependable() ==> r is Ok,
            match r {
                Ok(Some(t)) => old(self).model().trials.contains_key(t)
                    && old(self).model().next_claim(study, now_ms, t) && final(self).model()
                    == old(self).model().claimed(t, owner@, now_ms, lease_expiry_ms),
                Ok(None) => old(self).model().nothing_to_claim(study, now_ms)
                    && final(self).model() == old(self).model(),
                Err(_) => final(self).model() == old(self).model(),
            },
    ;

    /// Extend the lease of `trial` if `owner` still holds it; says whether it does.
    fn renew_lease(&mut self, trial: TrialId, owner: &str, new_expiry_ms: u64) -> (r: Result<
        bool,
        Error,
    >)
        ensures
            final(self).dependable() == old(self).dependable(),
            old(self).dependable() ==> r is Ok,
            match r {
                Ok(held) => held == old(self).model().held_by(trial, owner@)
                    && final(self).model() == if held {
                    old(self).model().renewed(trial, new_expiry_ms)
                } else {
                    old(self).model()
                },
                Err(_) => final(self).model() == old(self).model(),
            },
    ;

    /// Put every trial of a study whose lease has lapsed back in the queue; says how many.
    fn recover_orphans(&mut self, study: StudyId, now_ms: u64) -> (r: Result<usize, Error>)
        ensures
            final(self).dependable() == old(self).dependable(),
            old(self).dependable() ==> r is Ok,
            match r {
                Ok(n) => n == old(self).model().orphans(study, now_ms).len() && final(self).model()
                    == old(self).model().recovered(study, now_ms),
                Err(_) => final(self).model() == old(self).model(),
            },
    ;
}

/// Whether texts are strictly increasing.
pub open spec fn sorted_names(names: Seq<String>) -> bool {
    forall|i: int, j: int|
        0 <= i < j < names.len() ==> text::text_less(#[trigger] names[i]@, #[trigger] names[j]@)
}

/// Creating a study keeps the store consistent and touches no other study.
pub proof fn law_create_keeps_consistency(m: StoreModel, id: StudyId, meta: MetaModel)
    requires
        m.consistent(),
        !m.studies.contains_key(id),
    ensures
        m.with_study(id, meta).consistent(),
        m.with_study(id, meta).history(id) == HistoryModel::empty(),
        forall|s: StudyId|
            m.studies.contains_key(s) ==> #[trigger] m.with_study(id, meta).history(s) == m.history(
                s,
            ),
{
    let after = m.with_study(id, meta);
    assert(after.history(id) =~= HistoryModel::empty());
    assert forall|s: StudyId| m.studies.contains_key(s) implies #[trigger] after.history(s)
        == m.history(s) by {
        assert(after.history(s) =~= m.history(s));
    }
    assert forall|s: StudyId, i: int|
        #![trigger after.studies[s].trials[i]]
        after.studies.contains_key(s) && 0 <= i < after.studies[s].trials.len()
            implies after.trials.contains_key(after.studies[s].trials[i])
        && after.trials[after.studies[s].trials[i]].record.study_id == s by {
        assert(after.studies[s].trials[i] == m.studies[s].trials[i]);
    }
    assert forall|s: StudyId, i: int, j: int|
        #![trigger after.studies[s].trials[i], after.studies[s].trials[j]]
        after.studies.contains_key(s) && 0 <= i < j < after.studies[s].trials.len()
            implies after.studies[s].trials[i] != after.studies[s].trials[j] by {
        assert(m.studies[s].trials[i] != m.studies[s].trials[j]);
    }
}

/// Enqueueing a trial keeps the store consistent, appends the trial to the history of its study
/// and leaves every earlier trial of it alone.
pub proof fn law_enqueue_appends(
    m: StoreModel,
    id: TrialId,
    study: StudyId,
    params: Assignment,
    seed: u64,
    env: EnvModel,
    now: u64,
)
    requires
        m.consistent(),
        m.studies.contains_key(study),
        !m.trials.contains_key(id),
    ensures
        m.enqueued(id, study, params, seed, env, now).consistent(),
        m.enqueued(id, study, params, seed, env, now).history(study) == m.history(study).push(
            m.enqueued(id, study, params, seed, env, now).trials[id].record,
        ),
{
    let after = m.enqueued(id, study, params, seed, env, now);
    let list = m.studies[study].trials;
    assert(after.studies[study].trials == list.push(id));
    assert forall|s: StudyId, i: int|
        #![trigger after.studies[s].trials[i]]
        after.studies.contains_key(s) && 0 <= i < after.studies[s].trials.len()
            implies after.trials.contains_key(after.studies[s].trials[i])
        && after.trials[after.studies[s].trials[i]].record.study_id == s by {
        if s == study && i == list.len() {
        } else {
            assert(after.studies[s].trials[i] == m.studies[s].trials[i]);
            assert(m.trials.contains_key(m.studies[s].trials[i]));
        }
    }
    assert forall|s: StudyId, i: int, j: int|
        #![trigger after.studies[s].trials[i], after.studies[s].trials[j]]
        after.studies.contains_key(s) && 0 <= i < j < after.studies[s].trials.len()
            implies after.studies[s].trials[i] != after.studies[s].trials[j] by {
        assert(after.studies[s].trials[i] == m.studies[s].trials[i]);
        assert(m.trials.contains_key(m.studies[s].trials[i]));
        if !(s == study && j == list.len()) {
            assert(after.studies[s].trials[j] == m.studies[s].trials[j]);
            assert(m.studies[s].trials[i] != m.studies[s].trials[j]);
        }
    }
    let want = m.history(study).push(after.trials[id].record);
    assert forall|i: int| 0 <= i < want.len() implies after.history(study)[i] == want[i] by {
        if i < list.len() {
            assert(after.studies[study].trials[i] == m.studies[study].trials[i]);
            assert(m.trials.contains_key(m.studies[study].trials[i]));
        }
    }
    assert(after.history(study) =~= want);
}

/// Replacing the record of one trial, under its own study, keeps the store consistent and
/// changes the history of that study at that trial only.
pub proof fn law_record_update_is_local(
    m: StoreModel,
    study: StudyId,
    at: int,
    record: TrialModel,
)
    requires
        m.consistent(),
        m.studies.contains_key(study),
        0 <= at < m.studies[study].trials.len(),
        record.study_id == study,
    ensures
        m.with_record(m.studies[study].trials[at], record).consistent(),
        m.with_record(m.studies[study].trials[at], record).history(study) == m.history(
            study,
        ).update(at, record),
{
    let t = m.studies[study].trials[at];
    let after = m.with_record(t, record);
    assert(m.trials.contains_key(t));
    assert forall|s: StudyId, i: int|
        #![trigger after.studies[s].trials[i]]
        after.studies.contains_key(s) && 0 <= i < after.studies[s].trials.len()
            implies after.trials.contains_key(after.studies[s].trials[i])
        && after.trials[after.studies[s].trials[i]].record.study_id == s by {
        assert(m.trials.contains_key(m.studies[s].trials[i]));
    }
    assert forall|s: StudyId, i: int, j: int|
        #![trigger after.studies[s].trials[i], after.studies[s].trials[j]]
        after.studies.contains_key(s) && 0 <= i < j < after.studies[s].trials.len()
            implies after.studies[s].trials[i] != after.studies[s].trials[j] by {
        assert(m.studies[s].trials[i] != m.studies[s].trials[j]);
    }
    let want = m.history(study).update(at, record);
    assert forall|i: int| 0 <= i < want.len() implies after.history(study)[i] == want[i] by {
        if i < at {
            assert(m.studies[study].trials[i] != m.studies[study].trials[at]);
        } else if i > at {
            assert(m.studies[study].trials[at] != m.studies[study].trials[i]);
        }
    }
    assert(after.history(study) =~= want);
}

/// A lease excludes: while it lasts, a claimed trial cannot be claimed again.
pub proof fn law_claims_are_mutually_exclusive(
    m: StoreModel,
    trial: TrialId,
    owner: Seq<char>,
    now: u64,
    expiry: u64,
    later: u64,
)
    requires
        m.trials.contains_key(trial),
        later < expiry,
    ensures
        !m.claimed(trial, owner, now, expiry).claimable(trial, later),
{
}

/// A worker whose trial was claimed by another can no longer renew: its result is dropped.
pub proof fn law_reclaimed_trial_has_a_new_holder(
    m: StoreModel,
    trial: TrialId,
    old_owner: Seq<char>,
    new_owner: Seq<char>,
    now: u64,
    expiry: u64,
)
    requires
        m.trials.contains_key(trial),
        old_owner != new_owner,
    ensures
        !m.claimed(trial, new_owner, now, expiry).held_by(trial, old_owner),
        m.claimed(trial, new_owner, now, expiry).held_by(trial, new_owner),
{
}

/// A finished trial is never claimed again, and a sweep leaves it alone.
pub proof fn law_finished_trial_stays_finished(
    m: StoreModel,
    trial: TrialId,
    state: TrialState,
    final_metrics: Option<Metrics>,
    now: u64,
    study: StudyId,
    later: u64,
)
    requires
        m.trials.contains_key(trial),
        state.terminal(),
    ensures
        !m.finished(trial, state, final_metrics, now).claimable(trial, later),
        m.finished(trial, state, final_metrics, now).recovered(study, later).trials[trial]
            == m.finished(trial, state, final_metrics, now).trials[trial],
{
}

/// A sweep loses no trial: it keeps every trial and every study, and an orphan waits again, held
/// by nobody.
pub proof fn law_sweep_requeues_orphans(
    m: StoreModel,
    study: StudyId,
    now: u64,
    trial: TrialId,
    later: u64,
)
    requires
        m.trials.contains_key(trial),
    ensures
        m.recovered(study, now).studies == m.studies,
        m.recovered(study, now).trials.contains_key(trial),
        m.recovered(study, now).trials[trial].record.params == m.trials[trial].record.params,
        m.recovered(study, now).trials[trial].record.seed == m.trials[trial].record.seed,
        m.orphans(study, now).contains(trial) ==> m.recovered(study, now).trials[trial].record.state
            == TrialState::Waiting && m.recovered(study, now).claimable(trial, later) && m.recovered(
            study,
            now,
        ).trials[trial].lease.owner is None,
        !m.orphans(study, now).contains(trial) ==> m.recovered(study, now).trials[trial]
            == m.trials[trial],
{
}

/// A second sweep at the same time finds nothing left.
pub proof fn law_sweep_is_idempotent(m: StoreModel, study: StudyId, now: u64)
    ensures
        m.recovered(study, now).orphans(study, now) =~= Set::<TrialId>::empty(),
        m.recovered(study, now).recovered(study, now) == m.recovered(study, now),
{
    let once = m.recovered(study, now);
    assert(once.orphans(study, now) =~= Set::<TrialId>::empty());
    assert(once.recovered(study, now).trials =~= once.trials);
}

/// A trial waits with what it was queued with, then runs, then ends as it is finished: each step
/// stamps its time and keeps everything else, and other trials are not touched.
pub proof fn law_a_trial_waits_runs_and_ends(
    store: StoreModel,
    id: TrialId,
    study: StudyId,
    params: Assignment,
    seed: u64,
    env: EnvModel,
    queued: u64,
    begun: u64,
    state: TrialState,
    metrics: Option<Metrics>,
    ended: u64,
    other: TrialId,
)
    requires
        store.studies.contains_key(study),
        other != id,
    ensures
        ({
            let waiting = store.enqueued(id, study, params, seed, env, queued);
            let running = waiting.started(id, begun);
            let done = running.finished(id, state, metrics, ended);
            &&& waiting.studies[study].trials.last() == id
            &&& waiting.trials[id].record.state == TrialState::Waiting
            &&& waiting.trials[id].record.final_metrics is None
            &&& waiting.trials[id].lease.owner is None
            &&& running.trials[id].record.state == TrialState::Running
            &&& running.trials[id].record.final_metrics is None
            &&& done.trials[id].record.id == id
            &&& done.trials[id].record.study_id == study
            &&& done.trials[id].record.params == params
            &&& done.trials[id].record.seed == seed
            &&& done.trials[id].record.env == env
            &&& done.trials[id].record.state == state
            &&& done.trials[id].record.final_metrics == metrics
            &&& done.trials[id].record.timing.queued_at_ms == queued
            &&& done.trials[id].record.timing.started_at_ms == Some(begun)
            &&& done.trials[id].record.timing.completed_at_ms == Some(ended)
            &&& begun <= ended ==> done.trials[id].record.timing.wall_time() == Some(
                (ended - begun) as u64,
            )
            &&& done.trials.contains_key(other) == store.trials.contains_key(other)
            &&& store.trials.contains_key(other) ==> done.trials[other] == store.trials[other]
        }),
{
}

/// A lease holds until its time: from the claim on no one else may claim the trial before it
/// lapses, a renewal moves that time, and from then on anyone may.
pub proof fn law_a_lease_holds_until_its_time(
    store: StoreModel,
    trial: TrialId,
    owner: Seq<char>,
    now: u64,
    expiry: u64,
    later: u64,
    at: u64,
)
    requires
        store.trials.contains_key(trial),
    ensures
        ({
            let held = store.claimed(trial, owner, now, expiry);
            let longer = held.renewed(trial, later);
            &&& held.held_by(trial, owner)
            &&& longer.held_by(trial, owner)
            &&& held.trials[trial].record.state == TrialState::Running
            &&& held.trials[trial].record.params == store.trials[trial].record.params
            &&& held.claimable(trial, at) <==> expiry <= at
            &&& longer.claimable(trial, at) <==> later <= at
            &&& store.trials[trial].record.timing.started_at_ms is None
                ==> held.trials[trial].record.timing.started_at_ms == Some(now)
            &&& store.trials[trial].record.timing.started_at_ms is Some
                ==> held.trials[trial].record.timing.started_at_ms
                == store.trials[trial].record.timing.started_at_ms
        }),
{
}

/// Claims go to the first in line: no trial that was queued before could be claimed instead.
pub proof fn law_claims_go_to_the_first_in_line(
    store: StoreModel,
    study: StudyId,
    now: u64,
    t: TrialId,
    i: int,
    j: int,
)
    requires
        store.consistent(),
        store.next_claim(study, now, t),
        0 <= i < store.studies[study].trials.len(),
        store.studies[study].trials[i] == t,
        0 <= j < i,
    ensures
        store.trials[t].record.state == TrialState::Waiting || store.trials[t].record.state
            == TrialState::Running,
        store.trials[store.studies[study].trials[j]].record.state != TrialState::Waiting,
{
    let k = choose|k: int|
        #![trigger store.studies[study].trials[k]]
        0 <= k < store.studies[study].trials.len() && store.studies[study].trials[k] == t
            && store.claimable(t, now) && forall|x: int|
            0 <= x < k ==> !store.claimable(#[trigger] store.studies[study].trials[x], now);
    if k < i {
        assert(store.studies[study].trials[k] != store.studies[study].trials[i]);
    }
    if i < k {
        assert(store.studies[study].trials[i] != store.studies[study].trials[k]);
    }
    assert(!store.claimable(store.studies[study].trials[j], now));
}

} // verus!
