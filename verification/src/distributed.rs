//! Distributed execution: the worker protocol over a lease-backed store.
//!
//! A coordinator enqueues pending trials; a [`Worker`] claims one, runs the objective while
//! renewing its lease at each report, and completes it only if it still holds the lease, so a
//! worker that was declared dead and had its trial reassigned never completes it twice.

use vstd::prelude::*;
use crate::error::Error;
use crate::metrics::NamedMetrics;
#[allow(unused_imports)]
use crate::objective::{Objective, Outcome, ReportLog, ReportSink};
#[allow(unused_imports)]
use crate::param::Assignment;
use crate::provenance::now_ms;
use crate::reals::Reals;
#[allow(unused_imports)]
use crate::run::Bench;
use crate::sampler::{Sampler, GOLDEN};
use crate::space::{SearchSpace, SpaceModel};
use crate::storage::{LeaseModel, SlotModel, Storage, StoreModel};
use crate::trial::{Metrics, ReportModel, StudyId, TrialId, TrialModel, TrialState};
#[allow(unused_imports)]
use crate::objective;
#[allow(unused_imports)]
use crate::provenance;
#[allow(unused_imports)]
use crate::run;
#[allow(unused_imports)]
use crate::space;
#[allow(unused_imports)]
use crate::storage;
#[allow(unused_imports)]
use crate::trial;

verus! {

/// Whether one more trial has been queued up: the sampler has proposed its parameters for the
/// history so far, its seed comes from its number `i` in the queue, and it waits.
pub open spec fn queued_next<A: Sampler<R>, R: Reals>(
    reals: &R,
    space: SpaceModel,
    base_seed: u64,
    n: nat,
    before: Bench<A>,
    after: Bench<A>,
) -> bool {
    let t = after.trials.last();
    &&& after.trials == before.trials.push(t)
    &&& before.sampler.proposes(reals, space, before.trials, t.params, after.sampler)
    &&& t.seed == run::trial_seed(base_seed, n - 1)
    &&& t.state == TrialState::Waiting
    &&& t.reports == Seq::<ReportModel>::empty()
    &&& t.final_metrics is None
}

/// Whether `n` trials have been queued up, one after the other.
pub open spec fn queued_up<A: Sampler<R>, R: Reals>(
    reals: &R,
    space: SpaceModel,
    base_seed: u64,
    n: nat,
    before: Bench<A>,
    after: Bench<A>,
) -> bool
    decreases n,
{
    if n == 0 {
        after == before
    } else {
        exists|mid: Bench<A>|
            queued_up(reals, space, base_seed, (n - 1) as nat, before, mid)
                && #[trigger] queued_next(reals, space, base_seed, n, mid, after)
    }
}

/// Queueing up appends as many trials, which wait and are seeded by their number, and leaves the
/// others as they were.
pub proof fn law_queueing_appends<A: Sampler<R>, R: Reals>(
    reals: &R,
    space: SpaceModel,
    base_seed: u64,
    n: nat,
    before: Bench<A>,
    after: Bench<A>,
)
    requires
        queued_up(reals, space, base_seed, n, before, after),
    ensures
        after.trials.len() == before.trials.len() + n,
        forall|i: int|
            0 <= i < before.trials.len() ==> #[trigger] after.trials[i] == before.trials[i],
        forall|i: int|
            before.trials.len() <= i < after.trials.len() ==> (#[trigger] after.trials[i]).state
                == TrialState::Waiting && after.trials[i].seed == run::trial_seed(
                base_seed,
                i - before.trials.len(),
            ),
    decreases n,
{
    if n > 0 {
        let mid = choose|mid: Bench<A>|
            queued_up(reals, space, base_seed, (n - 1) as nat, before, mid)
                && #[trigger] queued_next(reals, space, base_seed, n, mid, after);
        law_queueing_appends(reals, space, base_seed, (n - 1) as nat, before, mid);
        assert forall|i: int| 0 <= i < mid.trials.len() implies #[trigger] after.trials[i]
            == mid.trials[i] by {}
    }
}

/// Sample and enqueue `n` pending trials for a study (the coordinator's role). Each proposal is
/// enqueued as waiting for workers to claim.
pub fn enqueue_pending<S: Storage, A: Sampler<R>, R: Reals>(
    storage: &mut S,
    study: StudyId,
    space: &SearchSpace,
    sampler: &mut A,
    n: usize,
    base_seed: u64,
    reals: &R,
) -> (r: Result<Vec<TrialId>, Error>)
    requires
        old(storage).model().consistent(),
        space::drawable_space(space@),
    ensures
        final(storage).dependable() == old(storage).dependable(),
        old(storage).dependable() && old(storage).model().studies.contains_key(study) ==> r is Ok,
        r matches Ok(ids) ==> ids@.len() == n && final(storage).model().consistent() && (n > 0
            ==> old(storage).model().studies.contains_key(study)) && (old(
            storage,
        ).model().studies.contains_key(study) ==> final(storage).model().studies.contains_key(study)
            && final(storage).model().studies[study].trials == old(
            storage,
        ).model().studies[study].trials + ids@ && queued_up(
            reals,
            space@,
            base_seed,
            n as nat,
            (Bench { trials: old(storage).model().history(study), sampler: *old(sampler) }),
            (Bench { trials: final(storage).model().history(study), sampler: *final(sampler) }),
        )),
{
    let mut ids: Vec<TrialId> = Vec::new();
    let mut i: usize = 0;
    let ghost m0 = storage.model();
    let ghost before = m0.history(study);
    let ghost known = m0.studies.contains_key(study);
    proof {
        assert(m0.studies[study].trials + Seq::<TrialId>::empty() =~= m0.studies[study].trials);
    }
    while i < n
        invariant
            i <= n,
            ids@.len() == i,
            m0 == old(storage).model(),
            before == m0.history(study),
            known == m0.studies.contains_key(study),
            storage.dependable() == old(storage).dependable(),
            storage.model().consistent(),
            space::drawable_space(space@),
            i > 0 ==> known,
            known == storage.model().studies.contains_key(study),
            known ==> storage.model().studies[study].trials == m0.studies[study].trials + ids@,
            known ==> queued_up(
                reals,
                space@,
                base_seed,
                i as nat,
                (Bench { trials: before, sampler: *old(sampler) }),
                (Bench { trials: storage.model().history(study), sampler: *sampler }),
            ),
        decreases n - i,
    {
        let history = match storage.load_history(study) {
            Ok(h) => h,
            Err(e) => {
                return Err(e);
            },
        };
        let ghost mid = Bench { trials: history@, sampler: *sampler };
        let params = sampler.suggest(space, &history, reals);
        let seed = base_seed.wrapping_add((i as u64).wrapping_mul(GOLDEN));
        let ghost m = storage.model();
        let ghost list = ids@;
        let id = match storage.enqueue_trial(study, params, seed) {
            Ok(id) => id,
            Err(e) => {
                return Err(e);
            },
        };
        ids.push(id);
        proof {
            let after = storage.model();
            let (env, now) = choose|env: crate::provenance::EnvModel, now: u64|
                after == #[trigger] m.enqueued(id, study, params@, seed, env, now);
            storage::law_enqueue_appends(m, id, study, params@, seed, env, now);
            assert(m0.studies[study].trials + ids@ =~= (m0.studies[study].trials + list).push(id));
            let done = Bench { trials: after.history(study), sampler: *sampler };
            let k = (i + 1) as nat;
            assert((k - 1) as nat == i);
            assert(queued_next(reals, space@, base_seed, k, mid, done));
            assert(queued_up(
                reals,
                space@,
                base_seed,
                k,
                (Bench { trials: before, sampler: *old(sampler) }),
                done,
            ));
        }
        i += 1;
    }
    Ok(ids)
}

/// The outcome of one [`Worker::poll`].
#[derive(Debug, Clone, Copy, PartialEq, Eq, Structural)]
pub enum Poll {
    /// No claimable trial was available.
    Idle,
    /// The worker ran and completed the given trial.
    Ran(TrialId),
    /// The worker ran the trial but lost its lease before completing; its work is discarded.
    LostLease(TrialId),
}

/// A store as a worker uses it: reports of the running trial go to the store and renew the
/// worker's lease, the heartbeat.
pub struct LeaseDesk<S> {
    /// The shared store.
    pub storage: S,
    /// The trial on the desk and the lease it is run under.
    pub lease: Lease,
}

/// The trial that a worker runs and the lease it runs it under.
pub struct Lease {
    trial: TrialId,
    study: StudyId,
    owner: String,
    lease_ttl_ms: u64,
    lost: bool,
    origin: Ghost<StoreModel>,
    dependable: Ghost<bool>,
    log: Ghost<ReportLog>,
}

/// What a desk was set up on: the store as the trial was claimed, and the lease on the trial.
pub struct Claim {
    /// The store when the trial was claimed.
    pub store: StoreModel,
    /// The study that the trial belongs to.
    pub study: StudyId,
    /// The trial being evaluated.
    pub trial: TrialId,
    /// Who holds the lease.
    pub owner: Seq<char>,
    /// For how long the lease is renewed.
    pub ttl: u64,
    /// Whether the store fails only on ids that it does not hold.
    pub dependable: bool,
}

/// The store `b` is `a` with the reports of `log` taken for `trial` and its lease renewed.
pub open spec fn only_ran(a: StoreModel, b: StoreModel, trial: TrialId, log: ReportLog) -> bool {
    let (old, new) = (a.trials[trial], b.trials[trial]);
    b == a.with_slot(
        trial,
        (SlotModel {
            record: TrialModel {
                reports: storage::filed(old.record.reports, log),
                ..old.record
            },
            lease: LeaseModel { expiry: new.lease.expiry, ..old.lease },
        }),
    )
}

/// When a lease taken at `now` for `ttl` runs out.
pub open spec fn expiry_at(now: u64, ttl: u64) -> u64 {
    if now + ttl > u64::MAX {
        u64::MAX
    } else {
        (now + ttl) as u64
    }
}

impl Lease {
    /// The trial that is run.
    pub closed spec fn trial(self) -> TrialId {
        self.trial
    }

    /// The study that the trial belongs to.
    pub closed spec fn study(self) -> StudyId {
        self.study
    }

    /// The store when the trial began.
    pub closed spec fn origin(self) -> StoreModel {
        self.origin@
    }

    /// Whether the store was dependable when the trial began.
    pub closed spec fn dependable(self) -> bool {
        self.dependable@
    }

    /// For how long the lease is renewed.
    pub closed spec fn ttl(self) -> u64 {
        self.lease_ttl_ms
    }

    /// The reports made under the lease.
    pub closed spec fn log(self) -> ReportLog {
        self.log@
    }

    /// Whether a report found the lease in other hands.
    pub closed spec fn lost(self) -> bool {
        self.lost
    }

    /// The worker that holds the lease.
    pub closed spec fn owner(self) -> Seq<char> {
        self.owner@
    }

    /// A lease on `trial` for `owner`, not lost yet.
    fn new(
        trial: TrialId,
        study: StudyId,
        owner: String,
        lease_ttl_ms: u64,
        origin: Ghost<StoreModel>,
        dependable: Ghost<bool>,
    ) -> (l: Self)
        ensures
            l.trial() == trial,
            l.study() == study,
            l.owner() == owner@,
            l.origin() == origin@,
            l.dependable() == dependable@,
            l.ttl() == lease_ttl_ms,
            !l.lost(),
            l.log() == Seq::<(u64, Metrics)>::empty(),
    {
        Lease {
            trial,
            study,
            owner,
            lease_ttl_ms,
            lost: false,
            origin,
            dependable,
            log: Ghost(Seq::empty()),
        }
    }
}

impl<S: Storage> LeaseDesk<S> {
    /// A desk over a store, with no trial on it yet.
    pub fn new(storage: S) -> (d: Self)
        ensures
            d.storage == storage,
    {
        let origin = Ghost(storage.model());
        LeaseDesk {
            storage,
            lease: Lease::new(
                TrialId(0),
                StudyId(0),
                String::new(),
                1,
                origin,
                Ghost(false),
            ),
        }
    }

    /// Takes a report at the time `now`: the store records it, and the lease is renewed if the
    /// worker still holds it. Says whether it does.
    pub fn heartbeat(
        storage: &mut S,
        trial: TrialId,
        owner: &str,
        step: u64,
        metrics: NamedMetrics,
        expiry: u64,
    ) -> (r: Result<bool, Error>)
        ensures
            final(storage).dependable() == old(storage).dependable(),
            old(storage).dependable() && old(storage).model().trials.contains_key(trial)
                ==> r is Ok,
            ({
                let before = old(storage).model();
                let taken = before.reported(trial, step, metrics@);
                match r {
                    Ok(held) => before.trials.contains_key(trial) && held == before.held_by(
                        trial,
                        owner@,
                    ) && final(storage).model() == if held {
                        taken.renewed(trial, expiry)
                    } else {
                        taken
                    },
                    Err(_) => final(storage).model() == before || final(storage).model()
                        == taken,
                }
            }),
    {
        match storage.report(trial, step, metrics) {
            Ok(_) => {},
            Err(e) => {
                return Err(e);
            },
        }
        storage.renew_lease(trial, owner, expiry)
    }
}

impl<S: Storage> ReportSink for LeaseDesk<S> {
    type Anchor = Claim;

    closed spec fn anchor(&self) -> Claim {
        Claim {
            store: self.lease.origin(),
            study: self.lease.study(),
            trial: self.lease.trial(),
            owner: self.lease.owner(),
            ttl: self.lease.ttl(),
            dependable: self.lease.dependable(),
        }
    }

    open spec fn trial_of(anchor: Claim) -> TrialId {
        anchor.trial
    }

    open spec fn log(&self) -> ReportLog {
        self.lease.log()
    }

    open spec fn stopping(&self) -> bool {
        self.lease.lost()
    }

    /// A dependable store has only taken the reports of the log, and renewals, since the trial was
    /// claimed, and the lease is not lost.
    closed spec fn sound(&self) -> bool {
        &&& self.lease.dependable() ==> self.storage.dependable() && !self.lease.lost()
        &&& self.lease.dependable() ==> self.lease.origin().held_by(
            self.lease.trial(),
            self.lease.owner(),
        ) && only_ran(
            self.lease.origin(),
            self.storage.model(),
            self.lease.trial(),
            self.lease.log(),
        )
    }

    fn trial_id(&self) -> (id: TrialId) {
        self.lease.trial
    }

    fn report(&mut self, step: u64, metrics: NamedMetrics) -> (r: Result<(), Error>)
        ensures
            final(self).lease.owner() == old(self).lease.owner(),
            final(self).lease.ttl() == old(self).lease.ttl(),
            old(self).storage.dependable() && old(self).storage.model().trials.contains_key(
                old(self).lease.trial(),
            ) ==> r is Ok,
            ({
                let before = old(self).storage.model();
                let after = final(self).storage.model();
                let (trial, owner) = (old(self).lease.trial(), old(self).lease.owner());
                let taken = before.reported(trial, step, metrics@);
                match r {
                    Ok(_) => if before.held_by(trial, owner) {
                        &&& exists|now: u64| #[trigger]
                            provenance::is_now(now) && after == taken.renewed(
                                trial,
                                expiry_at(now, old(self).lease.ttl()),
                            )
                        &&& final(self).lease.lost() == old(self).lease.lost()
                    } else {
                        after == taken && final(self).lease.lost()
                    },
                    Err(_) => (after == before || after == taken) && final(self).lease.lost()
                        == old(self).lease.lost(),
                }
            }),
    {
        let now = now_ms();
        let expiry = now.saturating_add(self.lease.lease_ttl_ms);
        proof {
            assert(expiry == expiry_at(now, self.lease.ttl()));
        }
        let ghost log = self.lease.log@.push((step, metrics@));
        proof {
            assert(log.drop_last() =~= self.lease.log@);
        }
        let beat = Self::heartbeat(
            &mut self.storage,
            self.lease.trial,
            self.lease.owner.as_str(),
            step,
            metrics,
            expiry,
        );
        self.lease.log = Ghost(log);
        proof {
            if self.lease.dependable() {
                let (a, b) = (self.lease.origin(), self.storage.model());
                let trial = self.lease.trial();
                assert(b.trials =~= a.with_slot(
                    trial,
                    (SlotModel {
                        record: TrialModel {
                            reports: storage::filed(a.trials[trial].record.reports, log),
                            ..a.trials[trial].record
                        },
                        lease: LeaseModel {
                            expiry: b.trials[trial].lease.expiry,
                            ..a.trials[trial].lease
                        },
                    }),
                ).trials);
            }
        }
        match beat {
            Ok(held) => {
                if !held {
                    self.lease.lost = true;
                }
                Ok(())
            },
            Err(e) => Err(e),
        }
    }

    fn should_stop(&self) -> (r: bool) {
        self.lease.lost
    }
}

/// `after` is some store in which `owner` held the lease of `trial`, with the lease renewed for
/// `ttl` from a time that the clock said and the trial then finished by what its evaluation came
/// to.
pub open spec fn completed_by(
    after: StoreModel,
    trial: TrialId,
    owner: Seq<char>,
    ttl: u64,
    outcome: Outcome,
) -> bool {
    exists|mid: StoreModel, later: u64, now: u64|
        mid.held_by(trial, owner) && provenance::is_now(later) && after == #[trigger] mid.renewed(
            trial,
            expiry_at(later, ttl),
        ).finished(trial, run::ending(outcome, false).0, run::ending(outcome, false).1, now)
}

/// Whatever a trial was completed from, its completing worker is still its recorded holder.
pub proof fn law_completion_needs_the_lease(
    after: StoreModel,
    trial: TrialId,
    owner: Seq<char>,
    ttl: u64,
    outcome: Outcome,
    other: Seq<char>,
    other_ttl: u64,
    another: Outcome,
)
    requires
        completed_by(after, trial, owner, ttl, outcome),
    ensures
        after.held_by(trial, owner),
        after.trials[trial].record.state.terminal(),
        completed_by(after, trial, other, other_ttl, another) ==> owner == other,
{
}

/// Whether a worker evaluated parameters, with what came of it, and completed the trial by that.
pub open spec fn brought_in<O: Objective>(
    objective: O,
    params: Assignment,
    log: ReportLog,
    stopped: bool,
    outcome: Outcome,
    after: StoreModel,
    trial: TrialId,
    owner: Seq<char>,
    ttl: u64,
) -> bool {
    objective.allows(params, log, stopped, outcome) && completed_by(
        after,
        trial,
        owner,
        ttl,
        outcome,
    )
}

/// Whether a worker claimed `trial` in the store `before` at the time `now`, which the clock said,
/// for as long as it holds leases, and ran it on a desk set up for that.
pub open spec fn claimed_at(
    before: StoreModel,
    dependable: bool,
    study: StudyId,
    trial: TrialId,
    owner: Seq<char>,
    ttl: u64,
    anchor: Claim,
    now: u64,
) -> bool {
    &&& provenance::is_now(now)
    &&& before.next_claim(study, now, trial)
    &&& anchor == (Claim {
        store: before.claimed(trial, owner, now, expiry_at(now, ttl)),
        study,
        trial,
        owner,
        ttl,
        dependable,
    })
}

/// Whether `new` is trial `old` run to its end, by an evaluation that made some reports and came
/// to some outcome without losing the lease.
pub open spec fn run_of<O: Objective>(objective: O, old: TrialModel, new: TrialModel) -> bool {
    &&& run::same_trial(old, new)
    &&& exists|log: ReportLog, outcome: Outcome| #[trigger]
        objective.allows(old.params, log, false, outcome) && new.reports == storage::filed(
            old.reports,
            log,
        ) && new.state == run::ending(outcome, false).0 && new.final_metrics == run::ending(
            outcome,
            false,
        ).1
}

/// Whether a lease is what `owner` left, having renewed it last for `ttl` from a time that the
/// clock said.
pub open spec fn left_by(lease: LeaseModel, owner: Seq<char>, ttl: u64) -> bool {
    &&& lease.owner == Some(owner)
    &&& exists|later: u64| #[trigger]
        provenance::is_now(later) && lease.expiry == Some(expiry_at(later, ttl))
}

/// The store `b` is `a` with nothing but `trial` changed, which `owner` has run to its end.
pub open spec fn ran<O: Objective>(
    objective: O,
    owner: Seq<char>,
    ttl: u64,
    a: StoreModel,
    b: StoreModel,
    trial: TrialId,
) -> bool {
    &&& b == a.with_slot(trial, b.trials[trial])
    &&& run_of(objective, a.trials[trial].record, b.trials[trial].record)
    &&& left_by(b.trials[trial].lease, owner, ttl)
}

/// How many of some trials have not ended.
pub open spec fn unfinished(trials: Seq<TrialId>, slots: Map<TrialId, SlotModel>) -> nat
    decreases trials.len(),
{
    if trials.len() == 0 {
        0
    } else {
        unfinished(trials.drop_last(), slots) + if slots[trials.last()].record.state.terminal() {
            0nat
        } else {
            1nat
        }
    }
}

/// Running a trial of the queue to its end leaves one trial less to run, whatever queue without
/// repetitions it stands in.
pub proof fn law_every_run_ends_one_trial<O: Objective>(
    objective: O,
    owner: Seq<char>,
    ttl: u64,
    trials: Seq<TrialId>,
    a: StoreModel,
    b: StoreModel,
    trial: TrialId,
)
    requires
        ran(objective, owner, ttl, a, b, trial),
        trials.no_duplicates(),
        !a.trials[trial].record.state.terminal(),
    ensures
        unfinished(trials, a.trials) == unfinished(trials, b.trials) + if trials.contains(trial) {
            1nat
        } else {
            0nat
        },
    decreases trials.len(),
{
    if trials.len() > 0 {
        let rest = trials.drop_last();
        law_every_run_ends_one_trial(objective, owner, ttl, rest, a, b, trial);
        if trials.contains(trial) {
            let i = choose|i: int| 0 <= i < trials.len() && trials[i] == trial;
            if trials.last() == trial {
                assert forall|k: int| 0 <= k < rest.len() implies rest[k] != trial by {
                    assert(trials[k] != trials[trials.len() - 1]);
                }
                assert(!rest.contains(trial));
            } else {
                assert(rest[i] == trial);
            }
        } else {
            assert(trials[trials.len() - 1] != trial);
            assert forall|k: int| 0 <= k < rest.len() implies rest[k] != trial by {
                assert(trials[k] != trial);
            }
        }
    }
}

/// Whether nothing but trials of a study differs between two stores, and each of those has been
/// run to its end by `owner`.
pub open spec fn worked_through<O: Objective>(
    objective: O,
    owner: Seq<char>,
    ttl: u64,
    study: StudyId,
    a: StoreModel,
    b: StoreModel,
) -> bool {
    &&& b == (StoreModel { trials: b.trials, ..a })
    &&& b.trials.dom() == a.trials.dom()
    &&& forall|t: TrialId|
        a.trials.contains_key(t) && #[trigger] b.trials[t] != a.trials[t]
            ==> a.studies[study].trials.contains(t) && run_of(
            objective,
            a.trials[t].record,
            b.trials[t].record,
        ) && left_by(b.trials[t].lease, owner, ttl)
}

proof fn unfinished_is_bounded(trials: Seq<TrialId>, slots: Map<TrialId, SlotModel>)
    ensures
        unfinished(trials, slots) <= trials.len(),
    decreases trials.len(),
{
    if trials.len() > 0 {
        unfinished_is_bounded(trials.drop_last(), slots);
    }
}

/// A distributed worker that claims, runs and completes trials under a lease.
#[derive(Debug)]
pub struct Worker {
    id: String,
    lease_ttl_ms: u64,
}

impl Worker {
    /// The worker's identity.
    pub closed spec fn name(self) -> Seq<char> {
        self.id@
    }

    /// How long a claim lasts.
    pub closed spec fn ttl(self) -> u64 {
        self.lease_ttl_ms
    }

    /// A worker identified by `id`, holding leases for `lease_ttl_ms` (at least 1) and renewing
    /// them at every report.
    pub fn new(id: &str, lease_ttl_ms: u64) -> (w: Self)
        ensures
            w.name() == id@,
            w.ttl() == if lease_ttl_ms == 0 {
                1
            } else {
                lease_ttl_ms
            },
    {
        Worker {
            id: id.to_owned(),
            lease_ttl_ms: if lease_ttl_ms == 0 {
                1
            } else {
                lease_ttl_ms
            },
        }
    }

    /// The worker's identity.
    pub fn id(&self) -> (r: &str)
        ensures
            r@ == self.name(),
    {
        self.id.as_str()
    }

    /// Write the terminal result of a run, if the worker still holds the lease at that moment;
    /// otherwise drop it, so that the trial is not completed twice.
    pub fn finish<S: Storage>(
        &self,
        storage: &mut S,
        trial: TrialId,
        outcome: Result<NamedMetrics, Error>,
        expiry: u64,
    ) -> (r: Result<Poll, Error>)
        ensures
            final(storage).dependable() == old(storage).dependable(),
            old(storage).dependable() ==> r is Ok,
            r matches Ok(p) ==> {
                let m = old(storage).model();
                if m.held_by(trial, self.name()) {
                    p == Poll::Ran(trial) && exists|now: u64|
                        final(storage).model() == #[trigger] m.renewed(trial, expiry).finished(
                            trial,
                            run::ending(objective::outcome_of(outcome), false).0,
                            run::ending(objective::outcome_of(outcome), false).1,
                            now,
                        )
                } else {
                    p == Poll::LostLease(trial) && final(storage).model() == m
                }
            },
    {
        let ghost came = objective::outcome_of(outcome);
        let (state, metrics) = match outcome {
            Ok(m) => (TrialState::Complete, Some(m)),
            Err(_) => (TrialState::Failed, None),
        };
        proof {
            assert(run::ending(came, false) == (state, trial::metrics_model(metrics)));
        }
        match storage.renew_lease(trial, self.id.as_str(), expiry) {
            Ok(true) => {},
            Ok(false) => {
                return Ok(Poll::LostLease(trial));
            },
            Err(e) => {
                return Err(e);
            },
        }
        let ghost held = storage.model();
        match storage.complete(trial, state, metrics) {
            Ok(_) => {
                proof {
                    let now = choose|now: u64|
                        storage.model() == #[trigger] held.finished(
                            trial,
                            state,
                            trial::metrics_model(metrics),
                            now,
                        );
                    assert(storage.model() == old(storage).model().renewed(trial, expiry).finished(
                        trial,
                        run::ending(came, false).0,
                        run::ending(came, false).1,
                        now,
                    ));
                }
                Ok(Poll::Ran(trial))
            },
            Err(e) => Err(e),
        }
    }

    /// Claim and run a single trial, if one is available. On a dependable store of its own the
    /// worker never loses a lease: whatever it claims it runs to the end, and it touches nothing
    /// else.
    pub fn poll<S: Storage, O: Objective>(
        &self,
        desk: &mut LeaseDesk<S>,
        study: StudyId,
        objective: &O,
    ) -> (r: Result<Poll, Error>)
        ensures
            match r {
                Ok(Poll::Idle) => final(desk).storage.model() == old(desk).storage.model()
                    && exists|now: u64|
                    provenance::is_now(now) && #[trigger] old(
                        desk,
                    ).storage.model().nothing_to_claim(study, now),
                Ok(Poll::Ran(t)) => (exists|now: u64| #[trigger]
                    claimed_at(
                        old(desk).storage.model(),
                        old(desk).storage.dependable(),
                        study,
                        t,
                        self.name(),
                        self.ttl(),
                        final(desk).anchor(),
                        now,
                    )) && exists|
                    log: ReportLog,
                    stopped: bool,
                    outcome: Outcome,
                | #[trigger]
                    brought_in(
                        *objective,
                        old(desk).storage.model().trials[t].record.params,
                        log,
                        stopped,
                        outcome,
                        final(desk).storage.model(),
                        t,
                        self.name(),
                        self.ttl(),
                    ),
                Ok(Poll::LostLease(t)) => (exists|now: u64| #[trigger]
                    claimed_at(
                        old(desk).storage.model(),
                        old(desk).storage.dependable(),
                        study,
                        t,
                        self.name(),
                        self.ttl(),
                        final(desk).anchor(),
                        now,
                    )) && !final(desk).storage.model().held_by(t, self.name()),
                Err(_) => !old(desk).storage.dependable(),
            },
            old(desk).storage.dependable() ==> final(desk).storage.dependable() && match r {
                Ok(Poll::Idle) => true,
                Ok(Poll::Ran(t)) => ran(
                    *objective,
                    self.name(),
                    self.ttl(),
                    old(desk).storage.model(),
                    final(desk).storage.model(),
                    t,
                ),
                _ => false,
            },
    {
        let now = now_ms();
        let claim = desk.storage.claim_trial(
            study,
            self.id.as_str(),
            now,
            now.saturating_add(self.lease_ttl_ms),
        );
        let trial = match claim {
            Ok(Some(t)) => t,
            Ok(None) => {
                proof {
                    assert(old(desk).storage.model().nothing_to_claim(study, now));
                }
                return Ok(Poll::Idle);
            },
            Err(e) => {
                return Err(e);
            },
        };
        proof {
            assert(old(desk).storage.model().next_claim(study, now, trial));
        }
        let record = match desk.storage.load_trial(trial) {
            Ok(r) => r,
            Err(e) => {
                return Err(e);
            },
        };
        let ghost claimed = desk.storage.model();
        let ghost dependable = desk.storage.dependable();
        proof {
            assert(claimed == old(desk).storage.model().claimed(
                trial,
                self.name(),
                now,
                expiry_at(now, self.ttl()),
            ));
        }
        desk.lease = Lease::new(
            trial,
            study,
            self.id.clone(),
            self.lease_ttl_ms,
            Ghost(claimed),
            Ghost(dependable),
        );
        proof {
            assert(claimed.trials =~= claimed.with_slot(
                trial,
                (SlotModel {
                    record: TrialModel {
                        reports: storage::filed(
                            claimed.trials[trial].record.reports,
                            desk.lease.log(),
                        ),
                        ..claimed.trials[trial].record
                    },
                    lease: LeaseModel {
                        expiry: claimed.trials[trial].lease.expiry,
                        ..claimed.trials[trial].lease
                    },
                }),
            ).trials);
            assert(desk.sound());
        }
        let ghost anchor = desk.anchor();
        let outcome = objective.evaluate(&record.params, desk);
        let ghost log = desk.log();
        let ghost came = objective::outcome_of(outcome);
        proof {
            assert(desk.anchor() == anchor);
            let reports = choose|reports: ReportLog| #[trigger]
                objective::log_grows(Seq::empty(), reports, log) && objective.allows(
                    record.params@,
                    reports,
                    desk.stopping(),
                    came,
                );
            assert(reports =~= log);
        }
        let ghost stopped = desk.stopping();
        let later = now_ms();
        let expiry = later.saturating_add(self.lease_ttl_ms);
        let ghost mid = desk.storage.model();
        let r = self.finish(&mut desk.storage, trial, outcome, expiry);
        proof {
            assert(expiry == expiry_at(later, self.ttl()));
            assert(claimed_at(
                old(desk).storage.model(),
                old(desk).storage.dependable(),
                study,
                trial,
                self.name(),
                self.ttl(),
                desk.anchor(),
                now,
            ));
            if r is Err {
                assert(!old(desk).storage.dependable());
            }
            if let Ok(Poll::LostLease(t)) = r {
                assert(t == trial && !desk.storage.model().held_by(trial, self.name()));
            }
            if let Ok(Poll::Ran(t)) = r {
                assert(t == trial);
                let done = choose|now: u64|
                    desk.storage.model() == #[trigger] mid.renewed(trial, expiry).finished(
                        trial,
                        run::ending(came, false).0,
                        run::ending(came, false).1,
                        now,
                    );
                assert(desk.storage.model() == mid.renewed(
                    trial,
                    expiry_at(later, self.ttl()),
                ).finished(
                    trial,
                    run::ending(came, false).0,
                    run::ending(came, false).1,
                    done,
                ));
                assert(completed_by(desk.storage.model(), trial, self.name(), self.ttl(), came));
                assert(brought_in(
                    *objective,
                    old(desk).storage.model().trials[trial].record.params,
                    log,
                    stopped,
                    came,
                    desk.storage.model(),
                    trial,
                    self.name(),
                    self.ttl(),
                ));
            }
            if dependable {
                let (a, b) = (old(desk).storage.model(), desk.storage.model());
                assert(mid.held_by(trial, self.name()));
                assert(b.trials =~= a.with_slot(trial, b.trials[trial]).trials);
                assert(run_of(*objective, a.trials[trial].record, b.trials[trial].record));
                assert(left_by(b.trials[trial].lease, self.name(), self.ttl()));
                assert(ran(*objective, self.name(), self.ttl(), a, b, trial));
            }
        }
        r
    }

    /// Repeatedly [`poll`](Worker::poll) until no trial is available, returning how many trials
    /// this worker ran to completion.
    pub fn run_until_idle<S: Storage, O: Objective>(
        &self,
        desk: &mut LeaseDesk<S>,
        study: StudyId,
        objective: &O,
    ) -> (r: Result<usize, Error>)
        ensures
            r is Ok ==> exists|now: u64|
                provenance::is_now(now) && #[trigger] final(desk).storage.model().nothing_to_claim(
                    study,
                    now,
                ),
            old(desk).storage.dependable() && old(desk).storage.model().consistent() && old(
                desk,
            ).storage.model().studies.contains_key(study) ==> {
                let (a, b) = (old(desk).storage.model(), final(desk).storage.model());
                let queue = a.studies[study].trials;
                &&& b.studies == a.studies
                &&& r matches Ok(n) ==> n + unfinished(queue, b.trials) == unfinished(
                    queue,
                    a.trials,
                )
                &&& queue.len() < usize::MAX ==> r is Ok
                &&& worked_through(*objective, self.name(), self.ttl(), study, a, b)
            },
    {
        let mut count: usize = 0;
        let mut polls: usize = 0;
        let ghost a = desk.storage.model();
        let ghost queue = a.studies[study].trials;
        let ghost alone = desk.storage.dependable() && a.consistent() && a.studies.contains_key(
            study,
        );
        proof {
            unfinished_is_bounded(queue, a.trials);
            if alone {
                assert(queue.no_duplicates()) by {
                    assert forall|i: int, j: int|
                        0 <= i < queue.len() && 0 <= j < queue.len() && i != j implies queue[i]
                        != queue[j] by {
                        if i < j {
                            assert(a.studies[study].trials[i] != a.studies[study].trials[j]);
                        } else {
                            assert(a.studies[study].trials[j] != a.studies[study].trials[i]);
                        }
                    }
                }
            }
        }
        while polls < usize::MAX
            invariant
                count <= polls,
                a == old(desk).storage.model(),
                queue == a.studies[study].trials,
                unfinished(queue, a.trials) <= queue.len(),
                alone == (old(desk).storage.dependable() && a.consistent()
                    && a.studies.contains_key(study)),
                alone ==> queue.no_duplicates() && desk.storage.dependable()
                    && desk.storage.model().studies == a.studies && count == polls && count
                    + unfinished(queue, desk.storage.model().trials) == unfinished(queue, a.trials)
                    && worked_through(
                    *objective,
                    self.name(),
                    self.ttl(),
                    study,
                    a,
                    desk.storage.model(),
                ),
            decreases usize::MAX - polls,
        {
            let ghost before = desk.storage.model();
            match self.poll(desk, study, objective) {
                Ok(Poll::Idle) => {
                    return Ok(count);
                },
                Ok(Poll::Ran(t)) => {
                    proof {
                        if alone {
                            let i = choose|i: int|
                                #![trigger before.studies[study].trials[i]]
                                0 <= i < queue.len() && before.studies[study].trials[i] == t;
                            assert(queue[i] == t);
                            law_every_run_ends_one_trial(
                                *objective,
                                self.name(),
                                self.ttl(),
                                queue,
                                before,
                                desk.storage.model(),
                                t,
                            );
                            let after = desk.storage.model();
                            assert(before.trials[t] == a.trials[t]);
                            assert(after.trials.dom() =~= a.trials.dom());
                            assert forall|x: TrialId|
                                a.trials.contains_key(x) && #[trigger] after.trials[x]
                                    != a.trials[x] implies queue.contains(x) && run_of(
                                *objective,
                                a.trials[x].record,
                                after.trials[x].record,
                            ) && left_by(after.trials[x].lease, self.name(), self.ttl()) by {
                                if x != t {
                                    assert(after.trials[x] == before.trials[x]);
                                }
                            }
                        }
                    }
                    count += 1;
                },
                Ok(Poll::LostLease(_)) => {},
                Err(e) => {
                    return Err(e);
                },
            }
            polls += 1;
        }
        Err(Error::Storage("the queue never runs dry".to_owned()))
    }
}

/// A lease lasts as long as it is given, and never ends before it begins.
pub proof fn law_leases_last_their_time(now: u64, ttl: u64)
    ensures
        expiry_at(now, ttl) >= now,
        now + ttl <= u64::MAX ==> expiry_at(now, ttl) - now == ttl,
{
}

} // verus!
