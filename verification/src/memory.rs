//! The in-memory storage backend: non-persistent, and authoritative while it lives.

use vstd::prelude::*;
use crate::error::Error;
use crate::metrics::NamedMetrics;
use crate::names::NameMap;
use crate::param::ParamSet;
use crate::provenance::{now_ms, EnvModel, EnvSnapshot, TrialTiming};
use crate::storage::{
    unknown_study, unknown_trial, LeaseModel, SlotModel, Storage, StoreModel, StudyMeta,
    StudyModel,
};
use crate::text::same_text;
use crate::trial::{IntermediateReport, StudyId, TrialHistory, TrialId, TrialRecord, TrialState};
#[allow(unused_imports)]
use crate::models;
#[allow(unused_imports)]
use crate::provenance;
#[allow(unused_imports)]
use crate::storage;
#[allow(unused_imports)]
use crate::trial;

verus! {

/// A trial with its lease.
#[derive(Debug)]
struct Slot {
    record: TrialRecord,
    owner: Option<String>,
    expiry: Option<u64>,
}

impl View for Slot {
    type V = SlotModel;

    closed spec fn view(&self) -> SlotModel {
        SlotModel {
            record: self.record@,
            lease: LeaseModel {
                owner: match self.owner {
                    Some(o) => Some(o@),
                    None => None,
                },
                expiry: self.expiry,
            },
        }
    }
}

/// A study with its trials in enqueue order.
#[derive(Debug)]
struct StudyEntry {
    meta: StudyMeta,
    trials: Vec<TrialId>,
}

impl View for StudyEntry {
    type V = StudyModel;

    closed spec fn view(&self) -> StudyModel {
        StudyModel { meta: self.meta@, trials: self.trials@ }
    }
}

/// Whether `id` is the next id of a store that counts its studies up from zero.
pub open spec fn next_study(store: StoreModel, id: StudyId) -> bool {
    forall|s: StudyId| #[trigger] store.studies.contains_key(s) <==> s.0 < id.0
}

/// Whether `id` is the next id of a store that counts its trials up from zero.
pub open spec fn next_trial(store: StoreModel, id: TrialId) -> bool {
    forall|t: TrialId| #[trigger] store.trials.contains_key(t) <==> t.0 < id.0
}

/// The artifacts of a trial.
#[derive(Debug)]
struct Shelf {
    trial: TrialId,
    items: NameMap<Vec<u8>>,
}

/// The artifacts on the first shelf of `trial`.
spec fn shelved(shelves: Seq<Shelf>, trial: TrialId) -> Map<Seq<char>, Vec<u8>>
    decreases shelves.len(),
{
    if shelves.len() == 0 {
        Map::empty()
    } else if shelves[0].trial == trial {
        shelves[0].items@
    } else {
        shelved(shelves.drop_first(), trial)
    }
}

/// The shelf found first holds the artifacts.
proof fn shelved_at(shelves: Seq<Shelf>, trial: TrialId, i: int)
    requires
        0 <= i < shelves.len(),
        shelves[i].trial == trial,
        forall|k: int| 0 <= k < i ==> (#[trigger] shelves[k]).trial != trial,
    ensures
        shelved(shelves, trial) == shelves[i].items@,
    decreases shelves.len(),
{
    if i > 0 {
        let rest = shelves.drop_first();
        assert forall|k: int| 0 <= k < i - 1 implies (#[trigger] rest[k]).trial != trial by {
            assert(rest[k] == shelves[k + 1]);
        }
        shelved_at(rest, trial, i - 1);
    }
}

/// Without a shelf there are no artifacts.
proof fn shelved_nowhere(shelves: Seq<Shelf>, trial: TrialId)
    requires
        forall|k: int| 0 <= k < shelves.len() ==> (#[trigger] shelves[k]).trial != trial,
    ensures
        shelved(shelves, trial) == Map::<Seq<char>, Vec<u8>>::empty(),
    decreases shelves.len(),
{
    if shelves.len() > 0 {
        let rest = shelves.drop_first();
        assert forall|k: int| 0 <= k < rest.len() implies (#[trigger] rest[k]).trial != trial by {
            assert(rest[k] == shelves[k + 1]);
        }
        shelved_nowhere(rest, trial);
    }
}

/// Changing a shelf or adding one leaves the artifacts of other trials alone.
proof fn shelved_elsewhere(before: Seq<Shelf>, after: Seq<Shelf>, i: int, trial: TrialId)
    requires
        0 <= i < after.len(),
        after[i].trial != trial,
        (i < before.len() && after =~= before.update(i, after[i]) && before[i].trial != trial) || (i
            == before.len() && after =~= before.push(after[i])),
    ensures
        shelved(after, trial) == shelved(before, trial),
    decreases after.len(),
{
    reveal_with_fuel(shelved, 2);
    if i > 0 {
        let (a, b) = (before.drop_first(), after.drop_first());
        assert(after[0] == before[0]);
        assert(b[i - 1] == after[i]);
        if i < before.len() {
            assert(b =~= a.update(i - 1, b[i - 1]));
        } else {
            assert(b =~= a.push(b[i - 1]));
        }
        shelved_elsewhere(a, b, i - 1, trial);
    } else if before.len() > 0 {
        assert(after.drop_first() =~= before.drop_first());
    } else {
        assert(after.drop_first().len() == 0);
    }
}

/// The tables of the store, indexed by id.
#[derive(Debug)]
struct Inner {
    studies: Vec<StudyEntry>,
    slots: Vec<Slot>,
    shelves: Vec<Shelf>,
}

impl Inner {
    closed spec fn model(self) -> StoreModel {
        StoreModel {
            studies: Map::new(
                |s: StudyId| s.0 < self.studies@.len(),
                |s: StudyId| self.studies@[s.0 as int]@,
            ),
            trials: Map::new(
                |t: TrialId| t.0 < self.slots@.len(),
                |t: TrialId| self.slots@[t.0 as int]@,
            ),
            artifacts: Map::new(
                |k: (TrialId, Seq<char>)| shelved(self.shelves@, k.0).contains_key(k.1),
                |k: (TrialId, Seq<char>)| shelved(self.shelves@, k.0)[k.1]@,
            ),
        }
    }

    /// Each trial stands at its own id and in the list of its study, with its reports in order.
    closed spec fn well_formed(self) -> bool {
        &&& forall|i: int| 0 <= i < self.slots@.len() ==> (#[trigger] self.slots@[i]).record.id.0 == i
        &&& forall|s: int, j: int|
            0 <= s < self.studies@.len() && 0 <= j < self.studies@[s].trials@.len()
                ==> (#[trigger] self.studies@[s].trials@[j]).0 < self.slots@.len()
        &&& forall|i: int|
            0 <= i < self.slots@.len() ==> storage::in_step_order(
                (#[trigger] self.slots@[i])@.record.reports,
            )
    }

    fn empty() -> (inner: Inner)
        ensures
            inner.well_formed(),
            inner.model().studies =~= Map::<StudyId, StudyModel>::empty(),
            inner.model().trials =~= Map::<TrialId, SlotModel>::empty(),
            inner.model().artifacts =~= Map::<(TrialId, Seq<char>), Seq<u8>>::empty(),
    {
        Inner { studies: Vec::new(), slots: Vec::new(), shelves: Vec::new() }
    }

    /// Replacing one slot in the tables replaces it in the model.
    proof fn slot_replaced(before: Inner, after: Inner, i: int)
        requires
            0 <= i < before.slots@.len(),
            i <= u64::MAX,
            after.studies@ == before.studies@,
            after.shelves@ == before.shelves@,
            after.slots@ =~= before.slots@.update(i, after.slots@[i]),
        ensures
            after.model() == before.model().with_slot(TrialId(i as u64), after.slots@[i]@),
    {
        assert(after.model().trials =~= before.model().with_slot(
            TrialId(i as u64),
            after.slots@[i]@,
        ).trials);
        assert(after.model().studies =~= before.model().studies);
    }

    fn has_trial(&self, trial: TrialId) -> (r: bool)
        ensures
            r == self.model().trials.contains_key(trial),
            r ==> trial.0 < self.slots@.len(),
    {
        trial.0 < self.slots.len() as u64
    }

    fn has_study(&self, study: StudyId) -> (r: bool)
        ensures
            r == self.model().studies.contains_key(study),
            r ==> study.0 < self.studies@.len(),
    {
        study.0 < self.studies.len() as u64
    }

    /// Where a known trial stands.
    fn slot_of(&self, trial: TrialId) -> (i: usize)
        requires
            self.model().trials.contains_key(trial),
        ensures
            i == trial.0,
            i < self.slots@.len(),
    {
        let n = self.slots.len();
        proof {
            assert(trial.0 < n);
        }
        trial.0 as usize
    }

    /// Where a known study stands.
    fn entry_of(&self, study: StudyId) -> (s: usize)
        requires
            self.model().studies.contains_key(study),
        ensures
            s == study.0,
            s < self.studies@.len(),
    {
        let n = self.studies.len();
        proof {
            assert(study.0 < n);
        }
        study.0 as usize
    }

    fn create_study(&mut self, meta: StudyMeta) -> (id: StudyId)
        requires
            old(self).well_formed(),
        ensures
            final(self).well_formed(),
            next_study(old(self).model(), id),
            final(self).model() == old(self).model().with_study(id, meta@),
    {
        let id = StudyId(self.studies.len() as u64);
        self.studies.push(StudyEntry { meta, trials: Vec::new() });
        proof {
            assert(self.model().studies =~= old(self).model().with_study(id, meta@).studies);
            assert(self.model().trials =~= old(self).model().trials);
            assert forall|s: int, j: int|
                0 <= s < self.studies@.len() && 0 <= j < self.studies@[s].trials@.len() implies (
            #[trigger] self.studies@[s].trials@[j]).0 < self.slots@.len() by {
                assert(self.studies@[s] == old(self).studies@[s]);
            }
        }
        id
    }

    fn enqueue_trial(
        &mut self,
        study: StudyId,
        params: ParamSet,
        seed: u64,
        env: EnvSnapshot,
        now: u64,
    ) -> (id: TrialId)
        requires
            old(self).well_formed(),
            old(self).model().studies.contains_key(study),
        ensures
            final(self).well_formed(),
            next_trial(old(self).model(), id),
            final(self).model() == old(self).model().enqueued(
                id,
                study,
                params@,
                seed,
                env@,
                now,
            ),
    {
        let id = TrialId(self.slots.len() as u64);
        let mut record = TrialRecord::new(id, study, params, seed);
        record.env = env;
        record.timing = TrialTiming::queued_at(now);
        let slot = Slot { record, owner: None, expiry: None };
        self.slots.push(slot);
        let at = self.entry_of(study);
        self.studies[at].trials.push(id);
        proof {
            let want = old(self).model().enqueued(id, study, params@, seed, env@, now);
            assert(slot@ == want.trials[id]);
            assert(self.studies@[at as int]@ == want.studies[study]);
            assert(self.model().studies =~= want.studies);
            assert(self.model().trials =~= want.trials);
            assert forall|s: int, j: int|
                0 <= s < self.studies@.len() && 0 <= j < self.studies@[s].trials@.len() implies (
            #[trigger] self.studies@[s].trials@[j]).0 < self.slots@.len() by {
                if s == at && j == old(self).studies@[s].trials@.len() {
                } else {
                    assert(self.studies@[s].trials@[j] == old(self).studies@[s].trials@[j]);
                }
            }
        }
        id
    }

    fn start_trial(&mut self, trial: TrialId, now: u64)
        requires
            old(self).well_formed(),
            old(self).model().trials.contains_key(trial),
        ensures
            final(self).well_formed(),
            final(self).model() == old(self).model().started(trial, now),
    {
        let i = self.slot_of(trial);
        self.slots[i].record.state = TrialState::Running;
        self.slots[i].record.timing.started_at_ms = Some(now);
        proof {
            Self::slot_replaced(*old(self), *self, i as int);
        }
    }

    fn complete(
        &mut self,
        trial: TrialId,
        state: TrialState,
        final_metrics: Option<NamedMetrics>,
        now: u64,
    )
        requires
            old(self).well_formed(),
            old(self).model().trials.contains_key(trial),
        ensures
            final(self).well_formed(),
            final(self).model() == old(self).model().finished(
                trial,
                state,
                trial::metrics_model(final_metrics),
                now,
            ),
    {
        let i = self.slot_of(trial);
        self.slots[i].record.state = state;
        self.slots[i].record.final_metrics = final_metrics;
        self.slots[i].record.timing.completed_at_ms = Some(now);
        proof {
            Self::slot_replaced(*old(self), *self, i as int);
        }
    }

    fn report(&mut self, trial: TrialId, step: u64, metrics: NamedMetrics)
        requires
            old(self).well_formed(),
            old(self).model().trials.contains_key(trial),
        ensures
            final(self).well_formed(),
            final(self).model() == old(self).model().reported(trial, step, metrics@),
    {
        let i = self.slot_of(trial);
        let ghost before = self.slots@[i as int]@.record.reports;
        let n = self.slots[i].record.intermediate.len();
        let mut at: usize = 0;
        while at < n && self.slots[i].record.intermediate[at].step < step
            invariant
                *self == *old(self),
                i < self.slots@.len(),
                n == self.slots@[i as int].record.intermediate@.len(),
                before == models::of(self.slots@[i as int].record.intermediate@),
                at <= n,
                forall|k: int| 0 <= k < at ==> (#[trigger] before[k]).step < step,
            decreases n - at,
        {
            proof {
                assert(before[at as int].step
                    == self.slots@[i as int].record.intermediate@[at as int].step);
            }
            at += 1;
        }
        proof {
            storage::upsert_at(before, step, metrics@, at as int);
            storage::law_reports_stay_in_step_order(before, step, metrics@);
        }
        if at < n && self.slots[i].record.intermediate[at].step == step {
            self.slots[i].record.intermediate[at].metrics = metrics;
        } else {
            self.slots[i].record.intermediate.insert(at, IntermediateReport { step, metrics });
        }
        proof {
            assert(self.slots@[i as int]@.record.reports =~= storage::upsert(
                before,
                step,
                metrics@,
            ));
            Self::slot_replaced(*old(self), *self, i as int);
        }
    }

    /// Where the first shelf of a trial stands.
    fn shelf_of(&self, trial: TrialId) -> (r: Option<usize>)
        ensures
            match r {
                Some(i) => i < self.shelves@.len() && self.shelves@[i as int].trial == trial
                    && shelved(self.shelves@, trial) == self.shelves@[i as int].items@,
                None => shelved(self.shelves@, trial) == Map::<Seq<char>, Vec<u8>>::empty()
                    && forall|k: int|
                    0 <= k < self.shelves@.len() ==> (#[trigger] self.shelves@[k]).trial != trial,
            },
            r matches Some(i) ==> forall|k: int|
                0 <= k < i ==> (#[trigger] self.shelves@[k]).trial != trial,
    {
        let mut i: usize = 0;
        while i < self.shelves.len()
            invariant
                i <= self.shelves@.len(),
                forall|k: int| 0 <= k < i ==> (#[trigger] self.shelves@[k]).trial != trial,
            decreases self.shelves@.len() - i,
        {
            if self.shelves[i].trial == trial {
                proof {
                    shelved_at(self.shelves@, trial, i as int);
                }
                return Some(i);
            }
            i += 1;
        }
        proof {
            shelved_nowhere(self.shelves@, trial);
        }
        None
    }

    fn save_artifact(&mut self, trial: TrialId, name: &str, bytes: Vec<u8>)
        requires
            old(self).well_formed(),
        ensures
            final(self).well_formed(),
            final(self).model() == old(self).model().with_artifact(trial, name@, bytes@),
    {
        let ghost before = self.shelves@;
        let at = match self.shelf_of(trial) {
            Some(i) => i,
            None => {
                let n = self.shelves.len();
                self.shelves.push(Shelf { trial, items: NameMap::new() });
                proof {
                    let mid = self.shelves@;
                    shelved_at(mid, trial, n as int);
                }
                n
            },
        };
        let ghost mid = self.shelves@;
        self.shelves[at].items.insert(name, bytes);
        proof {
            let after = self.shelves@;
            let want = old(self).model().with_artifact(trial, name@, bytes@);
            assert(after =~= mid.update(at as int, after[at as int]));
            shelved_at(after, trial, at as int);
            assert(shelved(after, trial) == shelved(before, trial).insert(name@, bytes));
            assert forall|t: TrialId| t != trial implies #[trigger] shelved(after, t) == shelved(
                before,
                t,
            ) by {
                if before.len() < after.len() {
                    assert(after =~= before.push(after[at as int]));
                }
                shelved_elsewhere(before, after, at as int, t);
            }
            assert(self.model().artifacts =~= want.artifacts);
            assert(self.model().trials =~= want.trials);
            assert(self.model().studies =~= want.studies);
        }
    }

    fn is_claimable(slot: &Slot, now: u64) -> (r: bool)
        ensures
            r == (slot@.record.state == TrialState::Waiting || (slot@.record.state
                == TrialState::Running && (slot@.lease.expiry matches Some(e) ==> e <= now))),
    {
        match slot.record.state {
            TrialState::Waiting => true,
            TrialState::Running => match slot.expiry {
                None => true,
                Some(e) => e <= now,
            },
            _ => false,
        }
    }

    fn claim_trial(&mut self, study: StudyId, owner: &str, now: u64, expiry: u64) -> (r: Option<
        TrialId,
    >)
        requires
            old(self).well_formed(),
        ensures
            final(self).well_formed(),
            match r {
                Some(t) => old(self).model().trials.contains_key(t)
                    && old(self).model().next_claim(study, now, t) && final(self).model()
                    == old(self).model().claimed(t, owner@, now, expiry),
                None => old(self).model().nothing_to_claim(study, now) && final(self).model()
                    == old(self).model(),
            },
    {
        if !self.has_study(study) {
            return None;
        }
        let s = self.entry_of(study);
        let ghost m = self.model();
        let mut j: usize = 0;
        while j < self.studies[s].trials.len()
            invariant
                *self == *old(self),
                self.well_formed(),
                m == self.model(),
                s < self.studies@.len(),
                s == study.0,
                m.studies.contains_key(study),
                m.studies[study].trials == self.studies@[s as int].trials@,
                j <= self.studies@[s as int].trials@.len(),
                forall|k: int|
                    0 <= k < j ==> !m.claimable(#[trigger] m.studies[study].trials[k], now),
            decreases self.studies@[s as int].trials@.len() - j,
        {
            let t = self.studies[s].trials[j];
            proof {
                assert(self.studies@[s as int].trials@[j as int].0 < self.slots@.len());
                assert(m.trials[t] == self.slots@[t.0 as int]@);
                assert(m.studies[study].trials[j as int] == t);
            }
            let i = self.slot_of(t);
            if Self::is_claimable(&self.slots[i], now) {
                self.slots[i].record.state = TrialState::Running;
                if self.slots[i].record.timing.started_at_ms.is_none() {
                    self.slots[i].record.timing.started_at_ms = Some(now);
                }
                self.slots[i].owner = Some(owner.to_owned());
                self.slots[i].expiry = Some(expiry);
                proof {
                    Self::slot_replaced(*old(self), *self, i as int);
                    assert(m.next_claim(study, now, t));
                    assert(self.slots@[i as int]@ == m.claimed(t, owner@, now, expiry).trials[t]);
                }
                return Some(t);
            }
            j += 1;
        }
        None
    }

    fn renew_lease(&mut self, trial: TrialId, owner: &str, expiry: u64) -> (held: bool)
        requires
            old(self).well_formed(),
        ensures
            final(self).well_formed(),
            held == old(self).model().held_by(trial, owner@),
            final(self).model() == if held {
                old(self).model().renewed(trial, expiry)
            } else {
                old(self).model()
            },
    {
        if !self.has_trial(trial) {
            return false;
        }
        let i = self.slot_of(trial);
        let held = match &self.slots[i].owner {
            Some(o) => same_text(o.as_str(), owner),
            None => false,
        };
        if held {
            self.slots[i].expiry = Some(expiry);
            proof {
                Self::slot_replaced(*old(self), *self, i as int);
            }
        }
        held
    }

    fn recover_orphans(&mut self, study: StudyId, now: u64) -> (n: usize)
        requires
            old(self).well_formed(),
        ensures
            final(self).well_formed(),
            n == old(self).model().orphans(study, now).len(),
            final(self).model() == old(self).model().recovered(study, now),
    {
        let mut n: usize = 0;
        let mut i: usize = 0;
        let ghost m = self.model();
        let ghost all = m.orphans(study, now);
        let ghost mut seen: Set<TrialId> = Set::empty();
        while i < self.slots.len()
            invariant
                i <= self.slots@.len(),
                self.slots@.len() == old(self).slots@.len(),
                self.studies@ == old(self).studies@,
                self.shelves@ == old(self).shelves@,
                old(self).well_formed(),
                self.well_formed(),
                m == old(self).model(),
                all == m.orphans(study, now),
                seen.finite(),
                seen.len() == n,
                n <= i,
                seen =~= Set::new(|t: TrialId| t.0 < i && all.contains(t)),
                forall|k: int|
                    i <= k < self.slots@.len() ==> self.slots@[k] == #[trigger] old(self).slots@[k],
                forall|k: int|
                    0 <= k < i ==> (#[trigger] self.slots@[k])@ == m.recovered(
                        study,
                        now,
                    ).trials[TrialId(k as u64)],
            decreases self.slots@.len() - i,
        {
            let ghost t = TrialId(i as u64);
            let ghost before = self.slots@;
            proof {
                assert(self.slots@[i as int] == old(self).slots@[i as int]);
                assert(m.trials[t] == self.slots@[i as int]@);
            }
            let lapsed = match self.slots[i].expiry {
                Some(e) => e <= now,
                None => false,
            };
            if self.slots[i].record.study_id == study && self.slots[i].record.state
                == TrialState::Running && lapsed {
                self.slots[i].record.state = TrialState::Waiting;
                self.slots[i].owner = None;
                n += 1;
                proof {
                    assert(all.contains(t));
                    assert(!seen.contains(t));
                    seen = seen.insert(t);
                }
            } else {
                proof {
                    assert(!all.contains(t));
                }
            }
            proof {
                assert(self.slots@[i as int]@ == m.recovered(study, now).trials[t]);
                assert forall|k: int| i < k < self.slots@.len() implies self.slots@[k]
                    == #[trigger] old(self).slots@[k] by {
                    assert(before[k] == old(self).slots@[k]);
                }
                assert forall|x: TrialId| seen.contains(x) == (x.0 < i + 1 && all.contains(x)) by {
                    if x.0 == i {
                        assert(x == t);
                    }
                }
            }
            i += 1;
        }
        proof {
            assert(seen =~= all);
            assert(self.model().trials =~= m.recovered(study, now).trials);
            assert(self.model().studies =~= m.studies);
            assert(self.model().artifacts =~= m.artifacts);
        }
        n
    }

    fn load_history(&self, study: StudyId) -> (h: TrialHistory)
        requires
            self.well_formed(),
            self.model().studies.contains_key(study),
        ensures
            h@ == self.model().history(study),
            forall|j: int|
                0 <= j < h@.len() ==> storage::in_step_order((#[trigger] h@[j]).reports),
    {
        let s = self.entry_of(study);
        let mut records: Vec<TrialRecord> = Vec::new();
        let mut j: usize = 0;
        let ghost want = self.model().history(study);
        while j < self.studies[s].trials.len()
            invariant
                self.well_formed(),
                s < self.studies@.len(),
                s == study.0,
                want == self.model().history(study),
                j <= self.studies@[s as int].trials@.len(),
                records@.len() == j,
                forall|k: int|
                    0 <= k < j ==> (#[trigger] records@[k])@ == want[k] && storage::in_step_order(
                        want[k].reports,
                    ),
            decreases self.studies@[s as int].trials@.len() - j,
        {
            let t = self.studies[s].trials[j];
            proof {
                assert(self.studies@[s as int].trials@[j as int].0 < self.slots@.len());
                assert(self.model().trials[t] == self.slots@[t.0 as int]@);
                assert(want[j as int] == self.slots@[t.0 as int]@.record);
            }
            let i = self.slot_of(t);
            records.push(self.slots[i].record.clone());
            j += 1;
        }
        proof {
            assert(models::of(records@) =~= want);
        }
        TrialHistory::new(records)
    }
}

/// A non-persistent [`Storage`] backend. Every call on an id that it holds succeeds.
#[derive(Debug)]
pub struct InMemoryStorage {
    inner: Inner,
    env: EnvSnapshot,
}

impl InMemoryStorage {
    #[verifier::type_invariant]
    spec fn tables_agree(self) -> bool {
        self.inner.well_formed()
    }

    /// The environment that is stamped on the trials that it enqueues.
    pub closed spec fn environment(self) -> EnvModel {
        self.env@
    }

    /// Whether the store holds nothing and knows nothing of its environment.
    pub open spec fn blank(self) -> bool {
        &&& self.model().studies == Map::<StudyId, StudyModel>::empty()
        &&& self.model().trials == Map::<TrialId, SlotModel>::empty()
        &&& self.model().artifacts == Map::<(TrialId, Seq<char>), Seq<u8>>::empty()
        &&& self.environment() == provenance::unknown_env()
    }

    /// A fresh, empty in-memory store that knows nothing of its environment.
    pub fn new() -> (s: Self)
        ensures
            s.blank(),
            s.dependable(),
    {
        InMemoryStorage { inner: Inner::empty(), env: EnvSnapshot::unknown() }
    }

    /// The same store, stamping `env` on the trials that it will enqueue.
    pub fn with_env(self, env: EnvSnapshot) -> (s: Self)
        ensures
            s.model() == self.model(),
            s.environment() == env@,
    {
        proof {
            use_type_invariant(&self);
        }
        InMemoryStorage { inner: self.inner, env }
    }
}

impl Default for InMemoryStorage {
    fn default() -> (s: Self)
        ensures
            s.blank(),
            s.dependable(),
    {
        InMemoryStorage::new()
    }
}

impl Storage for InMemoryStorage {
    closed spec fn model(&self) -> StoreModel {
        self.inner.model()
    }

    open spec fn dependable(&self) -> bool {
        true
    }

    open spec fn takes_artifacts_of(&self, trial: TrialId) -> bool {
        true
    }

    fn create_study(&mut self, meta: StudyMeta) -> (r: Result<StudyId, Error>)
        ensures
            r matches Ok(id) && next_study(old(self).model(), id),
            final(self).environment() == old(self).environment(),
    {
        proof {
            use_type_invariant(&*self);
        }
        let mut inner = Inner::empty();
        std::mem::swap(&mut inner, &mut self.inner);
        let id = inner.create_study(meta);
        self.inner = inner;
        Ok(id)
    }

    fn enqueue_trial(&mut self, study: StudyId, params: ParamSet, seed: u64) -> (r: Result<
        TrialId,
        Error,
    >)
        ensures
            r matches Err(e) ==> storage::is_not_found(e, "study"@, study.0),
            r matches Ok(id) ==> next_trial(old(self).model(), id),
            r matches Ok(id) ==> exists|now: u64| #[trigger]
                provenance::is_now(now) && final(self).model() == old(self).model().enqueued(
                    id,
                    study,
                    params@,
                    seed,
                    old(self).environment(),
                    now,
                ),
            final(self).environment() == old(self).environment(),
    {
        proof {
            use_type_invariant(&*self);
        }
        if !self.inner.has_study(study) {
            return Err(unknown_study(study));
        }
        let now = now_ms();
        let env = self.env.clone();
        let mut inner = Inner::empty();
        std::mem::swap(&mut inner, &mut self.inner);
        let id = inner.enqueue_trial(study, params, seed, env, now);
        self.inner = inner;
        proof {
            assert(self.model() == old(self).model().enqueued(
                id,
                study,
                params@,
                seed,
                env@,
                now,
            ));
        }
        Ok(id)
    }

    fn start_trial(&mut self, trial: TrialId) -> (r: Result<(), Error>)
        ensures
            r matches Err(e) ==> storage::is_not_found(e, "trial"@, trial.0),
            r is Ok ==> exists|now: u64| #[trigger]
                provenance::is_now(now) && final(self).model() == old(self).model().started(
                    trial,
                    now,
                ),
            final(self).environment() == old(self).environment(),
    {
        proof {
            use_type_invariant(&*self);
        }
        if !self.inner.has_trial(trial) {
            return Err(unknown_trial(trial));
        }
        let now = now_ms();
        let mut inner = Inner::empty();
        std::mem::swap(&mut inner, &mut self.inner);
        inner.start_trial(trial, now);
        self.inner = inner;
        proof {
            assert(self.model() == old(self).model().started(trial, now));
        }
        Ok(())
    }

    fn report(&mut self, trial: TrialId, step: u64, metrics: NamedMetrics) -> (r: Result<
        (),
        Error,
    >)
        ensures
            r matches Err(e) ==> storage::is_not_found(e, "trial"@, trial.0),
            final(self).environment() == old(self).environment(),
    {
        proof {
            use_type_invariant(&*self);
        }
        if !self.inner.has_trial(trial) {
            return Err(unknown_trial(trial));
        }
        let mut inner = Inner::empty();
        std::mem::swap(&mut inner, &mut self.inner);
        inner.report(trial, step, metrics);
        self.inner = inner;
        Ok(())
    }

    fn complete(
        &mut self,
        trial: TrialId,
        state: TrialState,
        final_metrics: Option<NamedMetrics>,
    ) -> (r: Result<(), Error>)
        ensures
            r matches Err(e) ==> storage::is_not_found(e, "trial"@, trial.0),
            r is Ok ==> exists|now: u64| #[trigger]
                provenance::is_now(now) && final(self).model() == old(self).model().finished(
                    trial,
                    state,
                    trial::metrics_model(final_metrics),
                    now,
                ),
            final(self).environment() == old(self).environment(),
    {
        proof {
            use_type_invariant(&*self);
        }
        if !self.inner.has_trial(trial) {
            return Err(unknown_trial(trial));
        }
        let now = now_ms();
        let mut inner = Inner::empty();
        std::mem::swap(&mut inner, &mut self.inner);
        inner.complete(trial, state, final_metrics, now);
        self.inner = inner;
        proof {
            assert(self.model() == old(self).model().finished(
                trial,
                state,
                trial::metrics_model(final_metrics),
                now,
            ));
        }
        Ok(())
    }

    fn load_trial(&self, trial: TrialId) -> (r: Result<TrialRecord, Error>)
        ensures
            r matches Err(e) ==> storage::is_not_found(e, "trial"@, trial.0),
            r matches Ok(rec) ==> storage::in_step_order(rec@.reports),
    {
        proof {
            use_type_invariant(self);
        }
        if !self.inner.has_trial(trial) {
            return Err(unknown_trial(trial));
        }
        let i = self.inner.slot_of(trial);
        Ok(self.inner.slots[i].record.clone())
    }

    fn load_history(&self, study: StudyId) -> (r: Result<TrialHistory, Error>)
        ensures
            r matches Err(e) ==> storage::is_not_found(e, "study"@, study.0),
            r matches Ok(h) ==> forall|j: int|
                0 <= j < h@.len() ==> storage::in_step_order((#[trigger] h@[j]).reports),
    {
        proof {
            use_type_invariant(self);
        }
        if !self.inner.has_study(study) {
            return Err(unknown_study(study));
        }
        Ok(self.inner.load_history(study))
    }

    fn load_meta(&self, study: StudyId) -> (r: Result<StudyMeta, Error>)
        ensures
            r matches Err(e) ==> storage::is_not_found(e, "study"@, study.0),
    {
        if !self.inner.has_study(study) {
            return Err(unknown_study(study));
        }
        let s = self.inner.entry_of(study);
        Ok(self.inner.studies[s].meta.clone())
    }

    fn save_artifact(&mut self, trial: TrialId, name: &str, bytes: Vec<u8>) -> (r: Result<
        (),
        Error,
    >)
        ensures
            r is Ok,
            final(self).environment() == old(self).environment(),
    {
        proof {
            use_type_invariant(&*self);
        }
        let mut inner = Inner::empty();
        std::mem::swap(&mut inner, &mut self.inner);
        inner.save_artifact(trial, name, bytes);
        self.inner = inner;
        Ok(())
    }

    fn load_artifact(&self, trial: TrialId, name: &str) -> (r: Result<Option<Vec<u8>>, Error>) {
        let i = match self.inner.shelf_of(trial) {
            Some(i) => i,
            None => {
                return Ok(None);
            },
        };
        match self.inner.shelves[i].items.get(name) {
            None => Ok(None),
            Some(bytes) => {
                let copy = bytes.clone();
                proof {
                    assert(copy@ =~= bytes@);
                }
                Ok(Some(copy))
            },
        }
    }

    fn list_artifacts(&self, trial: TrialId) -> (r: Result<Vec<String>, Error>) {
        let mut out: Vec<String> = Vec::new();
        let at = match self.inner.shelf_of(trial) {
            Some(i) => i,
            None => {
                proof {
                    assert(models::of(out@) =~= Seq::<Seq<char>>::empty());
                }
                return Ok(out);
            },
        };
        let map = &self.inner.shelves[at].items;
        let pairs = map.iter();
        let mut i: usize = 0;
        while i < pairs.len()
            invariant
                i <= pairs@.len(),
                out@.len() == i,
                pairs@.len() == map.pairs().len(),
                forall|k: int| 0 <= k < pairs@.len() ==> *(#[trigger] pairs@[k]).0 == map.pairs()[k].0,
                forall|k: int| 0 <= k < i ==> (#[trigger] out@[k]) == map.pairs()[k].0,
            decreases pairs@.len() - i,
        {
            out.push(pairs[i].0.clone());
            i += 1;
        }
        proof {
            assert forall|i: int, j: int| 0 <= i < j < out@.len() implies crate::text::text_less(
                #[trigger] out@[i]@,
                #[trigger] out@[j]@,
            ) by {
                assert(crate::text::text_less(map.pairs()[i].0@, map.pairs()[j].0@));
            }
            assert forall|name: Seq<char>| #[trigger] models::of(out@).contains(name)
                <==> self.model().artifacts.contains_key((trial, name)) by {
                if models::of(out@).contains(name) {
                    let k = models::of(out@).index_of(name);
                    assert(map.pairs()[k].0@ == name);
                }
                if self.model().artifacts.contains_key((trial, name)) {
                    let k = choose|k: int|
                        0 <= k < map.pairs().len() && #[trigger] map.pairs()[k].0@ == name;
                    assert(models::of(out@)[k] == name);
                }
            }
        }
        Ok(out)
    }

    fn claim_trial(
        &mut self,
        study: StudyId,
        owner: &str,
        now_ms: u64,
        lease_expiry_ms: u64,
    ) -> (r: Result<Option<TrialId>, Error>)
        ensures
            final(self).environment() == old(self).environment(),
    {
        proof {
            use_type_invariant(&*self);
        }
        let mut inner = Inner::empty();
        std::mem::swap(&mut inner, &mut self.inner);
        let r = inner.claim_trial(study, owner, now_ms, lease_expiry_ms);
        self.inner = inner;
        Ok(r)
    }

    fn renew_lease(&mut self, trial: TrialId, owner: &str, new_expiry_ms: u64) -> (r: Result<
        bool,
        Error,
    >)
        ensures
            final(self).environment() == old(self).environment(),
    {
        proof {
            use_type_invariant(&*self);
        }
        let mut inner = Inner::empty();
        std::mem::swap(&mut inner, &mut self.inner);
        let r = inner.renew_lease(trial, owner, new_expiry_ms);
        self.inner = inner;
        Ok(r)
    }

    fn recover_orphans(&mut self, study: StudyId, now_ms: u64) -> (r: Result<usize, Error>)
        ensures
            final(self).environment() == old(self).environment(),
    {
        proof {
            use_type_invariant(&*self);
        }
        let mut inner = Inner::empty();
        std::mem::swap(&mut inner, &mut self.inner);
        let n = inner.recover_orphans(study, now_ms);
        self.inner = inner;
        Ok(n)
    }
}

} // verus!
