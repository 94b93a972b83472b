//! `Study`: the top-level handle that drives the universal optimization loop.
//!
//! A study owns directions, sampler, pruner and storage, and runs
//! `Sampler -> params -> Storage(enqueue) -> Objective -> Reports -> Pruner ->
//! Storage(complete) -> Sampler.observe -> next trial` until a budget is exhausted.

use vstd::prelude::*;
#[allow(unused_imports)]
use std::time::Instant;
use crate::budget::{Budget, Consumption, TrialBudget};
use crate::clock::{nanos_since, start};
use crate::error::Error;
use crate::executor::Executor;
use crate::hypervolume::Volumes;
use crate::importance::ParamImportance;
use crate::memory::InMemoryStorage;
use crate::metrics::{Direction, NamedMetrics, ObjectiveModel};
use crate::named::Named;
#[allow(unused_imports)]
use crate::objective::{Objective, ReportLog, ReportSink};
#[allow(unused_imports)]
use crate::objective;
use crate::param::ParamSet;
use crate::pareto::{MemberModel, ParetoFront};
use crate::pruner::{NoPruner, Pruner};
use crate::reals::Reals;
use crate::run::{Bench, Rig};
use crate::sampler::{RandomSampler, Sampler, GOLDEN};
use crate::scalar::Scalar;
use crate::space::SearchSpace;
use crate::storage::{clone_directions, Storage, StoreModel, StudyMeta};
use crate::trial::{
    HistoryModel, StudyId, TrialHistory, TrialId, TrialModel, TrialProgress, TrialRecord,
    TrialState,
};
#[allow(unused_imports)]
use crate::hypervolume;
use crate::importance;
#[allow(unused_imports)]
use crate::models;
#[allow(unused_imports)]
use crate::outcome;
#[allow(unused_imports)]
use crate::pareto;
#[allow(unused_imports)]
use crate::run;
#[allow(unused_imports)]
use crate::space;
#[allow(unused_imports)]
use crate::storage;
#[allow(unused_imports)]
use crate::trial;

verus! {

/// The store `b` is `a` with nothing but the reports of `trial` changed.
pub open spec fn only_reported(a: StoreModel, b: StoreModel, trial: TrialId) -> bool {
    b == a.with_record(
        trial,
        (TrialModel { reports: b.trials[trial].record.reports, ..a.trials[trial].record }),
    )
}

/// The ids of jobs.
pub open spec fn ids_of(jobs: Seq<(TrialId, ParamSet)>) -> Seq<TrialId> {
    jobs.map_values(|j: (TrialId, ParamSet)| j.0)
}

/// How a trial ends by what its objective returned and whether it was asked to stop: an
/// objective that fails fails its trial alone.
pub fn conclude(outcome: Result<NamedMetrics, Error>, stopped: bool) -> (r: (
    TrialState,
    Option<NamedMetrics>,
))
    ensures
        (r.0, trial::metrics_model(r.1)) == run::ending(objective::outcome_of(outcome), stopped),
{
    match outcome {
        Ok(m) => if stopped {
            (TrialState::Pruned, Some(m))
        } else {
            (TrialState::Complete, Some(m))
        },
        Err(_) => (TrialState::Failed, None),
    }
}

/// What a desk was set up on: the store as the trial began, where the trial stands in it, and who
/// judges it.
pub struct Post<P, R> {
    /// The store when the trial began.
    pub store: StoreModel,
    /// The study that the trial belongs to.
    pub study: StudyId,
    /// The trial being evaluated.
    pub trial: TrialId,
    /// The number of the trial in its study.
    pub at: int,
    /// Whether the store fails only on ids that it does not hold.
    pub dependable: bool,
    /// Who judges the trial.
    pub pruner: P,
    /// Who is asked for floating-point arithmetic.
    pub reals: R,
}

impl<P, R> Post<P, R> {
    /// Whether the trial is the one of its number in a study of a consistent store.
    pub open spec fn placed(self) -> bool {
        &&& self.store.consistent()
        &&& self.store.studies.contains_key(self.study)
        &&& 0 <= self.at < self.store.studies[self.study].trials.len()
        &&& self.store.studies[self.study].trials[self.at] == self.trial
    }
}

/// What a running trial reports to: it persists intermediate metrics and evaluates pruning at
/// each step, remembering whether the pruner asked to stop.
struct Desk<S, P, R> {
    storage: S,
    pruner: P,
    reals: R,
    study: StudyId,
    trial: TrialId,
    stop: bool,
    origin: Ghost<StoreModel>,
    at: Ghost<int>,
    dependable: Ghost<bool>,
    log: Ghost<ReportLog>,
}

impl<S: Storage, P: Pruner<R>, R: Reals> Desk<S, P, R> {
    /// A desk over a store, with no trial on it yet.
    fn new(storage: S, pruner: P, reals: R, study: StudyId) -> (d: Self)
        ensures
            d.storage == storage,
            d.pruner == pruner,
            d.reals == reals,
            d.study == study,
    {
        let ghost model = storage.model();
        let ghost dependable = storage.dependable();
        Desk {
            storage,
            pruner,
            reals,
            study,
            trial: TrialId(0),
            stop: false,
            origin: Ghost(model),
            at: Ghost(0),
            dependable: Ghost(dependable),
            log: Ghost(Seq::empty()),
        }
    }

    /// Records a report of `trial` and asks the pruner for its verdict.
    fn file(
        storage: &mut S,
        pruner: &P,
        reals: &R,
        study: StudyId,
        trial: TrialId,
        step: u64,
        metrics: NamedMetrics,
    ) -> (r: Result<bool, Error>)
        ensures
            final(storage).dependable() == old(storage).dependable(),
            old(storage).dependable() && old(storage).model().trials.contains_key(trial) && old(
                storage,
            ).model().studies.contains_key(study) ==> r is Ok,
            ({
                let (old_m, new_m) = (old(storage).model(), final(storage).model());
                let taken = old_m.reported(trial, step, metrics@);
                match r {
                    Ok(asked) => old_m.trials.contains_key(trial) && new_m == taken
                        && pruner.judges(
                        reals,
                        taken.trials[trial].record.reports,
                        taken.history(study),
                        asked,
                    ),
                    Err(_) => new_m == old_m || old_m.trials.contains_key(trial) && new_m == taken,
                }
            }),
    {
        match storage.report(trial, step, metrics) {
            Ok(_) => {},
            Err(e) => {
                return Err(e);
            },
        }
        let history = match storage.load_history(study) {
            Ok(h) => h,
            Err(e) => {
                return Err(e);
            },
        };
        let record = match storage.load_trial(trial) {
            Ok(rec) => rec,
            Err(e) => {
                return Err(e);
            },
        };
        let progress = TrialProgress { id: trial, intermediate: &record.intermediate };
        proof {
            assert(record@.reports == progress.reports());
        }
        Ok(pruner.should_prune(&progress, &history, reals))
    }
}

impl<S: Storage, P: Pruner<R>, R: Reals> ReportSink for Desk<S, P, R> {
    type Anchor = Post<P, R>;

    closed spec fn anchor(&self) -> Post<P, R> {
        Post {
            store: self.origin@,
            study: self.study,
            trial: self.trial,
            at: self.at@,
            dependable: self.dependable@,
            pruner: self.pruner,
            reals: self.reals,
        }
    }

    open spec fn trial_of(anchor: Post<P, R>) -> TrialId {
        anchor.trial
    }

    closed spec fn log(&self) -> ReportLog {
        self.log@
    }

    closed spec fn stopping(&self) -> bool {
        self.stop
    }

    /// Nothing but the reports of the trial has changed. On a dependable store they are those of
    /// the log, and the stop is what the pruner asked for at each of them.
    closed spec fn sound(&self) -> bool {
        &&& self.origin@.trials.contains_key(self.trial)
        &&& only_reported(self.origin@, self.storage.model(), self.trial)
        &&& self.storage.dependable() == self.dependable@
        &&& self.dependable@ && self.anchor().placed() ==> {
            &&& self.storage.model().trials[self.trial].record.reports == storage::filed(
                self.origin@.trials[self.trial].record.reports,
                self.log@,
            )
            &&& run::judged(
                self.pruner,
                self.reals,
                self.origin@.history(self.study),
                self.at@,
                self.log@,
                self.stop,
            )
        }
    }

    fn trial_id(&self) -> (id: TrialId) {
        self.trial
    }

    fn report(&mut self, step: u64, metrics: NamedMetrics) -> (r: Result<(), Error>) {
        let ghost before = self.storage.model();
        let ghost log = self.log@.push((step, metrics@));
        let ghost origin = self.origin@;
        let ghost start = origin.trials[self.trial].record;
        proof {
            assert(log.drop_last() =~= self.log@);
        }
        let filed = Self::file(
            &mut self.storage,
            &self.pruner,
            &self.reals,
            self.study,
            self.trial,
            step,
            metrics,
        );
        self.log = Ghost(log);
        proof {
            let now = self.storage.model();
            assert(now.trials =~= origin.with_record(
                self.trial,
                (TrialModel { reports: now.trials[self.trial].record.reports, ..start }),
            ).trials);
            if self.dependable@ && self.anchor().placed() {
                let record = TrialModel { reports: storage::filed(start.reports, log), ..start };
                assert(origin.trials.contains_key(origin.studies[self.study].trials[self.at@]));
                storage::law_record_update_is_local(origin, self.study, self.at@, record);
                assert(now == origin.with_record(self.trial, record));
                assert(origin.history(self.study)[self.at@] == start);
                assert(now.history(self.study) == run::with_log(
                    origin.history(self.study),
                    self.at@,
                    log,
                ));
                assert(filed matches Ok(asked) && run::rules(
                    self.pruner,
                    self.reals,
                    origin.history(self.study),
                    self.at@,
                    log,
                    asked,
                ));
            }
        }
        match filed {
            Ok(asked) => {
                if asked {
                    self.stop = true;
                }
                Ok(())
            },
            Err(e) => Err(e),
        }
    }

    fn should_stop(&self) -> (r: bool) {
        self.stop
    }
}

/// A configured optimization study, ready to run an objective.
pub struct Study<S, A, P, R> {
    space: SearchSpace,
    sampler: A,
    directions: Vec<(String, Direction)>,
    base_seed: u64,
    batch: usize,
    desk: Desk<S, P, R>,
}

/// What is left of the trials that name `objective` with a value, each with it.
pub open spec fn scored(objective: Seq<char>) -> spec_fn(TrialModel) -> Option<
    (Scalar, TrialModel),
> {
    |t: TrialModel|
        if t.state == TrialState::Complete {
            match t.value(objective) {
                Some(v) => Some((v, t)),
                None => None,
            }
        } else {
            None
        }
}

/// The leader of a list of scored trials: the first, replaced by each later one that is
/// strictly better.
pub open spec fn leader(d: Direction, trials: Seq<(Scalar, TrialModel)>) -> Option<
    (Scalar, TrialModel),
>
    decreases trials.len(),
{
    if trials.len() == 0 {
        None
    } else {
        match leader(d, trials.drop_last()) {
            None => Some(trials.last()),
            Some(b) => if d.better(trials.last().0, b.0) {
                Some(trials.last())
            } else {
                Some(b)
            },
        }
    }
}

/// Where the leader of a list of scored trials stands: the first, moved to each later one that is
/// strictly better.
pub open spec fn leader_at(d: Direction, trials: Seq<(Scalar, TrialModel)>) -> int
    decreases trials.len(),
{
    if trials.len() <= 1 {
        0
    } else {
        let at = leader_at(d, trials.drop_last());
        if d.better(trials.last().0, trials[at].0) {
            trials.len() - 1
        } else {
            at
        }
    }
}

proof fn leader_stands(d: Direction, trials: Seq<(Scalar, TrialModel)>)
    requires
        trials.len() > 0,
    ensures
        0 <= leader_at(d, trials) < trials.len(),
        leader(d, trials) == Some(trials[leader_at(d, trials)]),
    decreases trials.len(),
{
    let rest = trials.drop_last();
    if trials.len() > 1 {
        leader_stands(d, rest);
        assert(rest[leader_at(d, rest)] == trials[leader_at(d, rest)]);
    } else {
        assert(leader(d, rest) is None);
    }
}

/// The leader is one of the trials, no trial is better, and it is the earliest such one: better
/// than every trial before it, as long as all values are numbers.
pub proof fn law_leader_is_best(d: Direction, trials: Seq<(Scalar, TrialModel)>, i: int)
    requires
        0 <= i < trials.len(),
        forall|k: int| 0 <= k < trials.len() ==> !(#[trigger] trials[k]).0.nan(),
    ensures
        0 <= leader_at(d, trials) < trials.len(),
        leader(d, trials) == Some(trials[leader_at(d, trials)]),
        !d.better(trials[i].0, trials[leader_at(d, trials)].0),
        i < leader_at(d, trials) ==> d.better(trials[leader_at(d, trials)].0, trials[i].0),
    decreases trials.len(),
{
    leader_stands(d, trials);
    let rest = trials.drop_last();
    let n = trials.len() - 1;
    if n > 0 {
        assert forall|k: int| 0 <= k < rest.len() implies !(#[trigger] rest[k]).0.nan() by {
            assert(rest[k] == trials[k]);
        }
        leader_stands(d, rest);
        let at = leader_at(d, rest);
        let k = if i < n {
            i
        } else {
            0
        };
        law_leader_is_best(d, rest, k);
        assert(rest[at] == trials[at] && rest[k] == trials[k]);
        assert(trials[n] == trials.last());
        assert(!trials[at].0.nan() && !trials[n].0.nan() && !trials[i].0.nan());
    }
}

/// The members of the front after the completed trials of a history were offered in order.
pub open spec fn front_of(objectives: Seq<ObjectiveModel>, trials: Seq<TrialModel>) -> Seq<
    MemberModel,
>
    decreases trials.len(),
{
    if trials.len() == 0 {
        Seq::empty()
    } else {
        let rest = front_of(objectives, trials.drop_last());
        let t = trials.last();
        if t.final_metrics is Some && pareto::has_all(objectives, t.final_metrics->0) {
            pareto::offered(
                objectives,
                rest,
                t.id,
                pareto::values_of(objectives, t.final_metrics->0),
            )
        } else {
            rest
        }
    }
}

/// The objectives of a study as the front takes them.
pub open spec fn objective_models(directions: Seq<(Seq<char>, Direction)>) -> Seq<ObjectiveModel> {
    directions.map_values(
        |p: (Seq<char>, Direction)| ObjectiveModel { name: p.0, direction: p.1 },
    )
}

impl<S: Storage, A: Sampler<R>, P: Pruner<R>, R: Reals> Study<S, A, P, R> {
    /// The study's storage id.
    pub closed spec fn study_id(self) -> StudyId {
        self.desk.study
    }

    /// Everything the study's store holds.
    pub closed spec fn store(self) -> StoreModel {
        self.desk.storage.model()
    }

    /// What a run of the study goes by.
    pub closed spec fn rig(self) -> Rig<P, R> {
        Rig {
            space: self.space@,
            seed: self.base_seed,
            batch: self.batch,
            dependable: self.desk.storage.dependable(),
            pruner: self.desk.pruner,
            reals: self.desk.reals,
        }
    }

    /// The sampler.
    pub closed spec fn samples(self) -> A {
        self.sampler
    }

    /// What a run of the study works on.
    pub open spec fn bench(self) -> Bench<A> {
        Bench { trials: self.trials(), sampler: self.samples() }
    }

    /// Whether the study's store fails only on ids that it does not hold.
    pub open spec fn dependable(self) -> bool {
        self.rig().dependable
    }

    /// The description of the study in its store.
    pub open spec fn meta(self) -> storage::MetaModel {
        self.store().studies[self.study_id()].meta
    }

    /// The ids of the study's trials.
    pub open spec fn queue(self) -> Seq<TrialId> {
        self.store().studies[self.study_id()].trials
    }

    /// The trials of the study.
    pub open spec fn trials(self) -> HistoryModel {
        self.store().history(self.study_id())
    }

    /// The search space.
    pub open spec fn searches(self) -> space::SpaceModel {
        self.rig().space
    }

    /// The objectives and their directions.
    pub closed spec fn aims(self) -> Seq<(Seq<char>, Direction)> {
        storage::directions_model(self.directions@)
    }

    /// The base seed.
    pub open spec fn seed(self) -> u64 {
        self.rig().seed
    }

    /// How many trials are asked for at a time.
    pub open spec fn batch_size(self) -> usize {
        self.rig().batch
    }

    /// The study is recorded in a consistent store, and its space can be drawn from.
    pub open spec fn well_formed(self) -> bool {
        &&& self.store().consistent()
        &&& self.store().studies.contains_key(self.study_id())
        &&& space::drawable_space(self.searches())
        &&& self.batch_size() >= 1
    }

    /// The configuration of two studies is the same.
    pub open spec fn same_setup(self, other: Self) -> bool {
        &&& self.study_id() == other.study_id()
        &&& self.aims() == other.aims()
        &&& self.rig() == other.rig()
    }

    /// Whether the study is what a run of `n` trials over `objective` left of a new study with a
    /// sampler.
    pub open spec fn searched<O: Objective>(self, objective: O, n: u64, sampler: A) -> bool {
        exists|began: Instant, k: nat, c: Consumption| #[trigger]
            run::ran(
                self.rig(),
                objective,
                (TrialBudget { max_trials: n }),
                began,
                k,
                (Bench { trials: Seq::empty(), sampler }),
                self.bench(),
                c,
            ) && c.trials == n
    }

    /// Whether `jobs` are the last trials of the study, each with its parameters.
    pub open spec fn assigned(self, jobs: Seq<(TrialId, ParamSet)>) -> bool {
        let from = self.trials().len() - jobs.len();
        &&& 0 <= from
        &&& forall|j: int|
            0 <= j < jobs.len() ==> (#[trigger] jobs[j]).0 == self.queue()[from + j] && jobs[j].1@
                == self.trials()[from + j].params
    }

    /// Reconnect to an existing persisted study and continue optimizing it.
    ///
    /// The study's directions are loaded from storage, while the search space, sampler and
    /// pruner are supplied by the caller. Prior trials remain in `history()` and are observed by
    /// the sampler, so a resumed run picks up where it left off.
    pub fn resume(
        space: SearchSpace,
        storage: S,
        study_id: StudyId,
        sampler: A,
        pruner: P,
        reals: R,
        base_seed: u64,
    ) -> (r: Result<Self, Error>)
        requires
            storage.model().consistent(),
        ensures
            r matches Err(e) ==> !space::space_sound(space@) ==> exists|i: int| #[trigger]
                space::is_first_unsound(space@, i) && space::complains_of(e, space@, i),
            match r {
                Ok(s) => space::space_sound(space@) && storage.model().studies.contains_key(
                    study_id,
                ) && s.study_id() == study_id && s.store() == storage.model() && s.aims()
                    == storage.model().studies[study_id].meta.directions && s.samples() == sampler
                    && s.rig() == (Rig {
                    space: space@,
                    seed: base_seed,
                    batch: 1,
                    dependable: storage.dependable(),
                    pruner,
                    reals,
                }),
                Err(_) => !space::space_sound(space@) || !storage.dependable()
                    || !storage.model().studies.contains_key(study_id),
            },
    {
        match space.validate() {
            Ok(_) => {},
            Err(e) => {
                return Err(e);
            },
        }
        let meta = match storage.load_meta(study_id) {
            Ok(m) => m,
            Err(e) => {
                return Err(e);
            },
        };
        Ok(
            Study {
                space,
                sampler,
                directions: meta.directions,
                base_seed,
                batch: 1,
                desk: Desk::new(storage, pruner, reals, study_id),
            },
        )
    }

    /// The study's storage id.
    pub fn id(&self) -> (id: StudyId)
        ensures
            id == self.study_id(),
    {
        self.desk.study
    }

    /// The objectives and their directions.
    pub fn directions(&self) -> (r: &Vec<(String, Direction)>)
        ensures
            storage::directions_model(r@) == self.aims(),
    {
        &self.directions
    }

    /// The study's store.
    pub fn storage(&self) -> (r: &S)
        ensures
            r.model() == self.store(),
    {
        &self.desk.storage
    }

    /// Gives the store back.
    pub fn into_storage(self) -> (r: S)
        ensures
            r.model() == self.store(),
            r.dependable() == self.dependable(),
    {
        self.desk.storage
    }

    /// Whether the space of the study can be drawn from, as a run requires.
    pub fn is_drawable(&self) -> (r: bool)
        ensures
            r == space::drawable_space(self.searches()),
    {
        self.space.is_drawable()
    }

    /// How many trials the study asks for at once.
    pub fn batch(&self) -> (n: usize)
        ensures
            n == self.batch_size(),
    {
        self.batch
    }

    /// The full trial history recorded so far.
    pub fn history(&self) -> (r: Result<TrialHistory, Error>)
        ensures
            self.dependable() && self.store().studies.contains_key(self.study_id()) ==> r is Ok,
            r matches Ok(h) ==> h@ == self.trials(),
    {
        self.desk.storage.load_history(self.desk.study)
    }

    /// Ask the sampler for the next trial, enqueue it and mark it running. The seed of the trial
    /// comes from its number in the history, so that a resumed run does not replay the seeds of
    /// the original one.
    pub fn ask(&mut self) -> (r: Result<(TrialId, ParamSet), Error>)
        requires
            old(self).well_formed(),
        ensures
            final(self).same_setup(*old(self)),
            old(self).dependable() ==> r is Ok,
            storage::only_added(old(self).store(), final(self).store(), old(self).study_id()),
            r matches Ok(job) ==> !old(self).store().trials.contains_key(job.0)
                && final(self).well_formed() && run::asked(
                old(self).rig(),
                old(self).bench(),
                final(self).bench(),
            ) && final(self).queue() == old(self).queue().push(job.0)
                && job.1@ == final(self).trials().last().params,
    {
        let ghost m0 = self.desk.storage.model();
        proof {
            let list = m0.studies[self.desk.study].trials;
            assert(list =~= list.subrange(0, list.len() as int));
            assert(storage::only_added(m0, m0, self.desk.study));
        }
        let history = match self.desk.storage.load_history(self.desk.study) {
            Ok(h) => h,
            Err(e) => {
                return Err(e);
            },
        };
        let params = self.sampler.suggest(&self.space, &history, &self.desk.reals);
        let index = history.len() as u64;
        let seed = self.base_seed.wrapping_add(index.wrapping_mul(GOLDEN));
        let id = match self.desk.storage.enqueue_trial(self.desk.study, params.clone(), seed) {
            Ok(id) => id,
            Err(e) => {
                return Err(e);
            },
        };
        let ghost m1 = self.desk.storage.model();
        let ghost study = self.desk.study;
        proof {
            let (env, now) = choose|env: crate::provenance::EnvModel, now: u64|
                m1 == #[trigger] m0.enqueued(id, study, params@, seed, env, now);
            storage::law_enqueue_appends(m0, id, study, params@, seed, env, now);
            assert(m1.trials.contains_key(id));
            let (before, after) = (m0.studies[study].trials, m1.studies[study].trials);
            assert(before =~= after.subrange(0, before.len() as int));
            assert(after[before.len() as int] == id);
            assert(m1.studies.dom() =~= m0.studies.dom());
            assert(storage::only_added(m0, m1, study));
        }
        match self.desk.storage.start_trial(id) {
            Ok(_) => {},
            Err(e) => {
                return Err(e);
            },
        }
        proof {
            let m2 = self.desk.storage.model();
            let now = choose|now: u64| m2 == #[trigger] m1.started(id, now);
            assert(m2.trials.dom() =~= m1.trials.dom());
            assert(seq![id].contains(id)) by {
                assert(seq![id][0] == id);
            }
            assert(storage::only_touched(m1, m2, seq![id]));
            storage::added_trials_may_change(m0, m1, m2, study, seq![id]);
            let at = m0.studies[study].trials.len() as int;
            assert(m1.studies[study].trials[at] == id);
            let record = TrialModel {
                state: TrialState::Running,
                timing: crate::provenance::TrialTiming {
                    started_at_ms: Some(now),
                    ..m1.trials[id].record.timing
                },
                ..m1.trials[id].record
            };
            storage::law_record_update_is_local(m1, study, at, record);
            assert(m2.studies[study].trials =~= m0.studies[study].trials.push(id));
            assert(m1.history(study)[at] == m1.trials[id].record);
            assert(m2.history(study) =~= m0.history(study).push(record));
        }
        Ok((id, params))
    }

    /// Ask for a batch of trials: until the batch is full, or `budget` would be exhausted with
    /// the trials asked for so far on top of `consumption`. Each proposal is enqueued before the
    /// next one is asked for, so successive suggestions see a growing history.
    pub fn ask_batch<B: Budget>(&mut self, budget: &B, consumption: &Consumption) -> (r: Result<
        Vec<(TrialId, ParamSet)>,
        Error,
    >)
        requires
            old(self).well_formed(),
            consumption.trials <= u64::MAX - old(self).batch_size(),
        ensures
            final(self).same_setup(*old(self)),
            old(self).dependable() ==> r is Ok,
            storage::only_added(old(self).store(), final(self).store(), old(self).study_id()),
            r matches Ok(jobs) ==> (forall|j: int|
                0 <= j < jobs@.len() ==> !old(self).store().trials.contains_key(
                    (#[trigger] jobs@[j]).0,
                )) && final(self).well_formed() && run::fills(
                *budget,
                old(self).batch_size(),
                *consumption,
                jobs@.len(),
            ) && run::asked_in_turn(
                old(self).rig(),
                jobs@.len(),
                old(self).bench(),
                final(self).bench(),
            ) && final(self).assigned(jobs@),
    {
        let batch = self.batch;
        let mut jobs: Vec<(TrialId, ParamSet)> = Vec::new();
        let ghost rig = self.rig();
        let ghost from = self.trials().len();
        let ghost first = self.store();
        proof {
            let list = first.studies[self.study_id()].trials;
            assert(list =~= list.subrange(0, list.len() as int));
            assert(storage::only_added(first, first, self.study_id()));
        }
        while jobs.len() < batch
            invariant_except_break
                self.well_formed(),
                self.same_setup(*old(self)),
                rig == old(self).rig(),
                batch == rig.batch,
                first == old(self).store(),
                storage::only_added(first, self.store(), old(self).study_id()),
                forall|j: int|
                    0 <= j < jobs@.len() ==> !first.trials.contains_key((#[trigger] jobs@[j]).0),
                from == old(self).trials().len(),
                consumption.trials <= u64::MAX - batch,
                jobs@.len() <= batch,
                forall|j: nat|
                    j < jobs@.len() ==> !budget.exhausted(
                        #[trigger] run::with_trials(*consumption, j),
                    ),
                run::asked_in_turn(rig, jobs@.len(), old(self).bench(), self.bench()),
                self.trials().len() == from + jobs@.len(),
                self.queue().len() == self.trials().len(),
                self.assigned(jobs@),
            ensures
                self.well_formed(),
                self.same_setup(*old(self)),
                storage::only_added(first, self.store(), old(self).study_id()),
                forall|j: int|
                    0 <= j < jobs@.len() ==> !first.trials.contains_key((#[trigger] jobs@[j]).0),
                run::fills(*budget, batch, *consumption, jobs@.len()),
                run::asked_in_turn(rig, jobs@.len(), old(self).bench(), self.bench()),
                self.assigned(jobs@),
            decreases batch - jobs@.len(),
        {
            let mut projected = *consumption;
            projected.trials = projected.trials + jobs.len() as u64;
            let ghost n = jobs@.len();
            proof {
                assert(projected == run::with_trials(*consumption, n));
            }
            if budget.is_exhausted(&projected) {
                break;
            }
            let ghost list = jobs@;
            let ghost before = self.bench();
            let ghost queue = self.queue();
            let ghost stored = self.store();
            let asked = self.ask();
            proof {
                storage::adding_goes_on(first, stored, self.store(), old(self).study_id());
            }
            let job = match asked {
                Ok(j) => j,
                Err(e) => {
                    return Err(e);
                },
            };
            jobs.push(job);
            proof {
                let m = jobs@.len();
                assert((m - 1) as nat == n);
                assert(run::asked(rig, before, self.bench()));
                assert(run::asked_in_turn(rig, m, old(self).bench(), self.bench()));
                assert forall|j: int| 0 <= j < m implies (#[trigger] jobs@[j]).0
                    == self.queue()[from + j] && jobs@[j].1@ == self.trials()[from + j].params by {
                    if j < n {
                        assert(jobs@[j] == list[j]);
                        assert(self.queue()[from + j] == queue[from + j]);
                        assert(self.trials()[from + j] == before.trials[from + j]);
                    }
                }
            }
        }
        Ok(jobs)
    }

    /// Record an intermediate report of a running trial and ask the pruner whether the trial
    /// should stop, for an executor that runs the trials of a batch on its own.
    pub fn report(&mut self, trial: TrialId, step: u64, metrics: NamedMetrics) -> (r: Result<
        bool,
        Error,
    >)
        ensures
            final(self).same_setup(*old(self)),
            final(self).samples() == old(self).samples(),
            old(self).dependable() && old(self).store().trials.contains_key(trial) && old(
                self,
            ).store().studies.contains_key(old(self).study_id()) ==> r is Ok,
            ({
                let (before, after) = (old(self).store(), final(self).store());
                let taken = before.reported(trial, step, metrics@);
                match r {
                    Ok(asked) => before.trials.contains_key(trial) && after == taken && old(
                        self,
                    ).rig().pruner.judges(
                        &old(self).rig().reals,
                        taken.trials[trial].record.reports,
                        taken.history(old(self).study_id()),
                        asked,
                    ),
                    Err(_) => after == before || before.trials.contains_key(trial) && after
                        == taken,
                }
            }),
    {
        Desk::<S, P, R>::file(
            &mut self.desk.storage,
            &self.desk.pruner,
            &self.desk.reals,
            self.desk.study,
            trial,
            step,
            metrics,
        )
    }

    /// Persist how a running trial ended: what its objective returned, and whether it had been
    /// asked to stop.
    pub fn conclude_trial(
        &mut self,
        trial: TrialId,
        outcome: Result<NamedMetrics, Error>,
        stopped: bool,
    ) -> (r: Result<(), Error>)
        ensures
            final(self).same_setup(*old(self)),
            final(self).samples() == old(self).samples(),
            old(self).dependable() && old(self).store().trials.contains_key(trial) ==> r is Ok,
            match r {
                Ok(_) => old(self).store().trials.contains_key(trial) && exists|now: u64|
                    final(self).store() == #[trigger] old(self).store().finished(
                        trial,
                        run::ending(objective::outcome_of(outcome), stopped).0,
                        run::ending(objective::outcome_of(outcome), stopped).1,
                        now,
                    ),
                Err(_) => final(self).store() == old(self).store(),
            },
    {
        let ghost came = run::ending(objective::outcome_of(outcome), stopped);
        let (state, metrics) = conclude(outcome, stopped);
        let ghost before = self.desk.storage.model();
        let r = self.desk.storage.complete(trial, state, metrics);
        proof {
            if r is Ok {
                let now = choose|now: u64|
                    self.desk.storage.model() == #[trigger] before.finished(
                        trial,
                        state,
                        trial::metrics_model(metrics),
                        now,
                    );
                assert(self.store() == before.finished(trial, came.0, came.1, now));
            }
        }
        r
    }

    /// Count the trials of a batch that has been run, and tell the sampler of each: a trial counts
    /// its last reported step in epochs and its reports in steps.
    pub fn tally(&mut self, jobs: &Vec<(TrialId, ParamSet)>, consumption: Consumption) -> (c:
        Consumption)
        requires
            old(self).well_formed(),
            old(self).assigned(jobs@),
        ensures
            final(self).same_setup(*old(self)),
            final(self).store() == old(self).store(),
            run::taken_in_turn::<A, R>(
                old(self).dependable(),
                old(self).trials(),
                old(self).trials().len() - jobs@.len(),
                jobs@.len(),
                (old(self).samples(), consumption),
                (final(self).samples(), c),
            ),
    {
        let mut c = consumption;
        let mut k: usize = 0;
        let ghost dependable = self.dependable();
        let ghost trials = self.trials();
        let ghost from = trials.len() - jobs@.len();
        let ghost begun = (self.samples(), consumption);
        while k < jobs.len()
            invariant
                k <= jobs@.len(),
                self.same_setup(*old(self)),
                self.store() == old(self).store(),
                old(self).well_formed(),
                old(self).assigned(jobs@),
                dependable == old(self).dependable(),
                trials == old(self).trials(),
                from == trials.len() - jobs@.len(),
                begun == (old(self).samples(), consumption),
                run::taken_in_turn::<A, R>(
                    dependable,
                    trials,
                    from,
                    k as nat,
                    begun,
                    (self.samples(), c),
                ),
            decreases jobs@.len() - k,
        {
            let ghost before = (self.samples(), c);
            let ghost at = from + k;
            proof {
                let (m, study) = (self.store(), self.study_id());
                assert(jobs@[k as int].0 == m.studies[study].trials[at]);
                assert(m.trials.contains_key(m.studies[study].trials[at]));
                assert(m.trials[jobs@[k as int].0].record == trials[at]);
            }
            match self.desk.storage.load_trial(jobs[k].0) {
                Ok(record) => {
                    let last: u64 = match record.last_intermediate() {
                        Some(r) => r.step,
                        None => 0,
                    };
                    c.epochs = c.epochs.saturating_add(last);
                    c.steps = c.steps.saturating_add(record.intermediate.len() as u64);
                    self.sampler.on_trial_complete(&record);
                    proof {
                        assert(record@ == trials[at]);
                        assert(c == run::tallied(before.1, trials[at]));
                    }
                },
                Err(_) => {},
            }
            proof {
                let n = (k + 1) as nat;
                assert((n - 1) as nat == k);
                assert(run::taken_in_next::<A, R>(
                    dependable,
                    trials,
                    from,
                    n,
                    before,
                    (self.samples(), c),
                ));
                assert(run::taken_in_turn::<A, R>(
                    dependable,
                    trials,
                    from,
                    n,
                    begun,
                    (self.samples(), c),
                ));
            }
            k += 1;
        }
        c
    }

    /// Evaluate one running trial and persist its outcome.
    fn run_trial<O: Objective>(
        &mut self,
        trial: TrialId,
        params: &ParamSet,
        objective: &O,
        Ghost(at): Ghost<int>,
    )
        requires
            old(self).well_formed(),
            0 <= at < old(self).queue().len(),
            old(self).queue()[at] == trial,
            params@ == old(self).trials()[at].params,
        ensures
            final(self).well_formed(),
            final(self).same_setup(*old(self)),
            final(self).samples() == old(self).samples(),
            final(self).queue() == old(self).queue(),
            storage::only_touched(old(self).store(), final(self).store(), seq![trial]),
            run::evaluated(
                old(self).rig(),
                *objective,
                at,
                old(self).trials(),
                final(self).trials(),
            ),
    {
        let ghost m0 = self.desk.storage.model();
        let ghost study = self.desk.study;
        let ghost history = m0.history(study);
        let ghost dependable = self.desk.storage.dependable();
        let ghost start = m0.trials[trial].record;
        self.desk.trial = trial;
        self.desk.stop = false;
        self.desk.origin = Ghost(m0);
        self.desk.at = Ghost(at);
        self.desk.dependable = Ghost(dependable);
        self.desk.log = Ghost(Seq::empty());
        proof {
            assert(m0.trials.contains_key(m0.studies[study].trials[at]));
            assert(m0.trials =~= m0.with_record(
                trial,
                (TrialModel { reports: start.reports, ..start }),
            ).trials);
            assert(history[at] == start);
            assert(self.desk.sound());
        }
        let ghost anchor = self.desk.anchor();
        let outcome = objective.evaluate(params, &mut self.desk);
        let ghost log = self.desk.log();
        proof {
            assert(self.desk.anchor() == anchor);
            let reports = choose|reports: ReportLog| #[trigger]
                objective::log_grows(Seq::empty(), reports, log) && objective.allows(
                    params@,
                    reports,
                    self.desk.stop,
                    objective::outcome_of(outcome),
                );
            assert(reports =~= log);
        }
        let ghost m1 = self.desk.storage.model();
        let stop = self.desk.stop;
        let ghost judged = run::judged(
            self.desk.pruner,
            self.desk.reals,
            history,
            at,
            log,
            stop,
        );
        let _concluded = self.conclude_trial(trial, outcome, stop);
        proof {
            let m2 = self.desk.storage.model();
            let record = m2.trials[trial].record;
            assert(m2.trials =~= m0.with_record(trial, record).trials);
            assert(m2.trials.dom() =~= m0.trials.dom());
            assert(seq![trial].contains(trial)) by {
                assert(seq![trial][0] == trial);
            }
            storage::law_record_update_is_local(m0, study, at, record);
            assert(self.trials() == history.update(at, record));
            if dependable {
                assert(run::ends_as(
                    old(self).rig(),
                    *objective,
                    history,
                    at,
                    self.trials()[at],
                    log,
                    objective::outcome_of(outcome),
                    stop,
                ));
            }
        }
    }

    /// Evaluate the trials of a batch one after the other and persist their outcomes.
    fn run_batch<O: Objective>(&mut self, jobs: &Vec<(TrialId, ParamSet)>, objective: &O)
        requires
            old(self).well_formed(),
            old(self).assigned(jobs@),
        ensures
            final(self).well_formed(),
            final(self).same_setup(*old(self)),
            final(self).samples() == old(self).samples(),
            final(self).trials().len() == old(self).trials().len(),
            final(self).assigned(jobs@),
            storage::only_touched(old(self).store(), final(self).store(), ids_of(jobs@)),
            run::evaluated_in_turn(
                old(self).rig(),
                *objective,
                old(self).trials().len() - jobs@.len(),
                jobs@.len(),
                old(self).trials(),
                final(self).trials(),
            ),
    {
        let ghost from = self.trials().len() - jobs@.len();
        let ghost rig = self.rig();
        let mut i: usize = 0;
        while i < jobs.len()
            invariant
                i <= jobs@.len(),
                self.well_formed(),
                self.same_setup(*old(self)),
                rig == old(self).rig(),
                from == old(self).trials().len() - jobs@.len(),
                self.samples() == old(self).samples(),
                self.trials().len() == old(self).trials().len(),
                self.queue().len() == self.trials().len(),
                self.assigned(jobs@),
                storage::only_touched(old(self).store(), self.store(), ids_of(jobs@)),
                run::evaluated_in_turn(
                    rig,
                    *objective,
                    from,
                    i as nat,
                    old(self).trials(),
                    self.trials(),
                ),
            decreases jobs@.len() - i,
        {
            let ghost at = from + i;
            let ghost before = self.trials();
            let ghost queue = self.queue();
            let ghost stored = self.store();
            self.run_trial(jobs[i].0, &jobs[i].1, objective, Ghost(at));
            proof {
                let (a, b, c) = (old(self).store(), stored, self.store());
                assert(ids_of(jobs@)[i as int] == jobs@[i as int].0);
                assert forall|t: TrialId|
                    a.trials.contains_key(t) && !ids_of(jobs@).contains(t) implies
                    #[trigger] c.trials[t] == a.trials[t] by {
                    assert(b.trials.dom().contains(t));
                    assert(b.trials[t] == a.trials[t]);
                    let one = seq![jobs@[i as int].0];
                    if one.contains(t) {
                        assert(one[0] == t);
                    }
                }
                let n = (i + 1) as nat;
                let now = self.trials();
                assert((n - 1) as nat == i);
                assert(now == before.update(at, now[at]));
                assert(run::evaluated_next(rig, *objective, from, n, before, now));
                assert(run::evaluated_in_turn(
                    rig,
                    *objective,
                    from,
                    n,
                    old(self).trials(),
                    now,
                ));
                assert forall|j: int| 0 <= j < jobs@.len() implies (#[trigger] jobs@[j]).0
                    == self.queue()[from + j] && jobs@[j].1@ == now[from + j].params by {
                    assert(jobs@[j].0 == queue[from + j]);
                    assert(jobs@[j].1@ == before[from + j].params);
                }
            }
            i += 1;
        }
    }

    /// Run the optimization loop until `budget` is exhausted.
    ///
    /// Returns the number of trials completed (including pruned and failed ones). Trials are
    /// asked for in batches, run one after the other, counted, and told to the sampler.
    pub fn optimize<O: Objective, B: Budget>(&mut self, objective: &O, budget: &B) -> (r: Result<
        usize,
        Error,
    >)
        requires
            old(self).well_formed(),
        ensures
            final(self).same_setup(*old(self)),
            old(self).dependable() ==> r is Ok,
            storage::only_added(old(self).store(), final(self).store(), old(self).study_id()),
            r matches Ok(n) ==> final(self).well_formed() && exists|
                began: Instant,
                k: nat,
                c: Consumption,
            | #[trigger]
                run::ran(
                    old(self).rig(),
                    *objective,
                    *budget,
                    began,
                    k,
                    old(self).bench(),
                    final(self).bench(),
                    c,
                ) && run::is_over(old(self).rig(), *budget, c) && n == c.trials as usize
                    && run::advanced(
                    old(self).trials(),
                    final(self).trials(),
                    old(self).seed(),
                    c.trials as int,
                    c.trials as int,
                    old(self).dependable(),
                ),
    {
        let began = start();
        let mut consumption = Consumption::new();
        let ghost first = self.store();
        proof {
            let list = first.studies[self.study_id()].trials;
            assert(list =~= list.subrange(0, list.len() as int));
            assert(storage::only_added(first, first, self.study_id()));
        }
        match self.desk.storage.load_history(self.desk.study) {
            Ok(_) => {},
            Err(e) => {
                return Err(e);
            },
        }
        let batch = self.batch;
        let ghost rig = self.rig();
        let ghost mut k: nat = 0;
        proof {
            assert(consumption == run::nothing_spent());
        }
        while consumption.trials <= u64::MAX - batch as u64
            invariant_except_break
                self.well_formed(),
                self.same_setup(*old(self)),
                rig == old(self).rig(),
                batch == rig.batch,
                first == old(self).store(),
                storage::only_added(first, self.store(), old(self).study_id()),
                run::ran(
                    rig,
                    *objective,
                    *budget,
                    began,
                    k,
                    old(self).bench(),
                    self.bench(),
                    consumption,
                ),
            ensures
                self.well_formed(),
                self.same_setup(*old(self)),
                storage::only_added(first, self.store(), old(self).study_id()),
                run::ran(
                    rig,
                    *objective,
                    *budget,
                    began,
                    k,
                    old(self).bench(),
                    self.bench(),
                    consumption,
                ),
                run::is_over(rig, *budget, consumption),
            decreases u64::MAX - consumption.trials,
        {
            if budget.is_exhausted(&consumption) {
                break;
            }
            let ghost before = (self.bench(), consumption);
            let ghost stored = self.store();
            let asked = self.ask_batch(budget, &consumption);
            proof {
                storage::adding_goes_on(first, stored, self.store(), old(self).study_id());
            }
            let jobs = match asked {
                Ok(jobs) => jobs,
                Err(e) => {
                    return Err(e);
                },
            };
            let ghost begun = self.bench();
            let ghost n = jobs@.len();
            proof {
                assert(run::with_trials(before.1, 0) == before.1);
            }
            let ghost stored = self.store();
            self.run_batch(&jobs, objective);
            proof {
                let ids = ids_of(jobs@);
                assert forall|j: int| 0 <= j < ids.len() implies !first.trials.contains_key(
                    #[trigger] ids[j],
                ) by {
                    assert(ids[j] == jobs@[j].0);
                }
                storage::added_trials_may_change(
                    first,
                    stored,
                    self.store(),
                    old(self).study_id(),
                    ids,
                );
            }
            let ghost trials = self.trials();
            let mut tally = self.tally(&jobs, consumption);
            proof {
                assert(self.trials() == trials);
                assert(run::conducted(rig, *objective, n, begun, self.bench(), before.1, tally));
                run::law_batch_appends(
                    rig,
                    *objective,
                    n,
                    before.0,
                    begun,
                    self.bench(),
                    before.1,
                    tally,
                );
            }
            let ghost counted = tally;
            tally.trials = tally.trials + jobs.len() as u64;
            tally.wall_time = nanos_since(&began);
            consumption = tally;
            proof {
                assert(consumption == (Consumption {
                    wall_time: consumption.wall_time,
                    ..run::with_trials(counted, n)
                }));
                run::run_goes_on(
                    rig,
                    *objective,
                    *budget,
                    began,
                    k,
                    old(self).bench(),
                    before,
                    n,
                    begun,
                    counted,
                    (self.bench(), consumption),
                );
                k = k + 1;
            }
        }
        proof {
            run::law_run_appends(
                rig,
                *objective,
                *budget,
                began,
                k,
                old(self).bench(),
                self.bench(),
                consumption,
            );
        }
        Ok(consumption.trials as usize)
    }

    /// Convenience: run for a fixed number of trials. A dependable store runs exactly `n`
    /// (counted in machine words of the platform).
    pub fn optimize_n<O: Objective>(&mut self, objective: &O, n: u64) -> (r: Result<usize, Error>)
        requires
            old(self).well_formed(),
            n <= u64::MAX - old(self).batch_size(),
        ensures
            final(self).same_setup(*old(self)),
            old(self).dependable() ==> r is Ok,
            storage::only_added(old(self).store(), final(self).store(), old(self).study_id()),
            r matches Ok(m) ==> m == n as usize && final(self).well_formed() && exists|
                began: Instant,
                k: nat,
                c: Consumption,
            | #[trigger]
                run::ran(
                    old(self).rig(),
                    *objective,
                    (TrialBudget { max_trials: n }),
                    began,
                    k,
                    old(self).bench(),
                    final(self).bench(),
                    c,
                ) && c.trials == n && run::advanced(
                    old(self).trials(),
                    final(self).trials(),
                    old(self).seed(),
                    n as int,
                    n as int,
                    old(self).dependable(),
                ),
    {
        let budget = TrialBudget { max_trials: n };
        let r = self.optimize(objective, &budget);
        proof {
            if r is Ok {
                let (began, k, c) = choose|began: Instant, k: nat, c: Consumption| #[trigger]
                    run::ran(
                        old(self).rig(),
                        *objective,
                        budget,
                        began,
                        k,
                        old(self).bench(),
                        self.bench(),
                        c,
                    ) && run::is_over(old(self).rig(), budget, c) && r->Ok_0 == c.trials as usize
                        && run::advanced(
                        old(self).trials(),
                        self.trials(),
                        old(self).seed(),
                        c.trials as int,
                        c.trials as int,
                        old(self).dependable(),
                    );
                run::law_trial_budget_is_met(
                    old(self).rig(),
                    *objective,
                    n,
                    began,
                    k,
                    old(self).bench(),
                    self.bench(),
                    c,
                );
            }
        }
        r
    }

    /// The best completed trial for a single-objective study: the earliest of the best values.
    /// `None` if the study is multi-objective or has no completed trial with a value.
    pub fn best_trial(&self) -> (r: Result<Option<TrialRecord>, Error>)
        ensures
            self.dependable() && self.store().studies.contains_key(self.study_id()) ==> r is Ok,
            r matches Ok(best) ==> {
                let want = if self.aims().len() == 1 {
                    leader(
                        self.aims()[0].1,
                        models::pick(self.trials(), scored(self.aims()[0].0)),
                    )
                } else {
                    None
                };
                match best {
                    Some(rec) => want is Some && rec@ == (want->0).1,
                    None => want is None,
                }
            },
            forall|i: int|
                self.aims().len() == 1 && outcome::all_values_known(
                    self.trials(),
                    self.aims()[0].0,
                ) && 0 <= i < self.trials().len() && outcome::has_value(
                    #[trigger] self.trials()[i],
                    self.aims()[0].0,
                ) && r is Ok ==> r->Ok_0 is Some && outcome::has_value(
                    (r->Ok_0->0)@,
                    self.aims()[0].0,
                ) && !self.aims()[0].1.better(
                    self.trials()[i].final_metrics->0[self.aims()[0].0],
                    (r->Ok_0->0)@.final_metrics->0[self.aims()[0].0],
                ),
    {
        if self.directions.len() != 1 {
            return Ok(None);
        }
        let name = self.directions[0].0.as_str();
        let direction = self.directions[0].1;
        proof {
            assert(self.aims()[0] == (name@, direction));
        }
        let history = match self.desk.storage.load_history(self.desk.study) {
            Ok(h) => h,
            Err(e) => {
                return Err(e);
            },
        };
        let records = history.records();
        let ghost hm = history@;
        let ghost f = scored(name@);
        let mut best: Option<(Scalar, usize)> = None;
        let mut i: usize = 0;
        while i < records.len()
            invariant
                i <= records@.len(),
                records@.len() == hm.len(),
                f == scored(name@),
                forall|k: int| 0 <= k < records@.len() ==> (#[trigger] records@[k])@ == hm[k],
                match best {
                    Some(b) => b.1 < i && leader(
                        direction,
                        models::pick(hm.take(i as int), f),
                    ) == Some((b.0, hm[b.1 as int])),
                    None => leader(direction, models::pick(hm.take(i as int), f)) is None,
                },
            decreases records@.len() - i,
        {
            let ghost picked = models::pick(hm.take(i as int), f);
            proof {
                models::pick_step(hm, i as int, f);
                assert(records@[i as int]@ == hm[i as int]);
            }
            if records[i].state == TrialState::Complete {
                if let Some(v) = records[i].final_value(name) {
                    proof {
                        let more = picked.push((v, hm[i as int]));
                        assert(more.drop_last() =~= picked);
                    }
                    match best {
                        Some(b) => {
                            if direction.is_better(v, b.0) {
                                best = Some((v, i));
                            }
                        },
                        None => {
                            best = Some((v, i));
                        },
                    }
                }
            }
            i += 1;
        }
        proof {
            models::pick_whole(hm, f);
            assert forall|k: int|
                outcome::all_values_known(hm, name@) && 0 <= k < hm.len() && outcome::has_value(
                    #[trigger] hm[k],
                    name@,
                ) implies leader(direction, models::pick(hm, f)) matches Some(b)
                && outcome::has_value(b.1, name@) && !direction.better(
                hm[k].final_metrics->0[name@],
                b.1.final_metrics->0[name@],
            ) by {
                outcome::law_no_complete_trial_beats_the_best(direction, hm, name@, k);
            }
        }
        match best {
            Some(b) => Ok(Some(records[b.1].clone())),
            None => Ok(None),
        }
    }

    /// The hypervolume of the study's Pareto front relative to a reference point.
    pub fn hypervolume<V: Volumes>(&self, reference: &NamedMetrics, volumes: &V) -> (r: Result<
        Scalar,
        Error,
    >)
        ensures
            self.dependable() && self.store().studies.contains_key(self.study_id()) ==> r is Ok,
            r matches Ok(v) ==> {
                let objectives = objective_models(self.aims());
                let front = front_of(
                    objectives,
                    models::pick(self.trials(), trial::if_complete()),
                );
                &&& hypervolume::is_hypervolume(volumes, objectives, front, reference@, v)
                &&& !pareto::has_all(objectives, reference@) || front.len() == 0 ==> v.pattern()
                    == 0
            },
    {
        match self.pareto_front() {
            Ok(front) => Ok(front.hypervolume(reference, volumes)),
            Err(e) => Err(e),
        }
    }

    /// Per-parameter importance for the study's first objective, most important first.
    pub fn importance<R2: Reals>(&self, reals: &R2) -> (r: Result<Vec<ParamImportance>, Error>)
        ensures
            self.dependable() && self.store().studies.contains_key(self.study_id()) ==> r is Ok,
            r matches Ok(items) ==> {
                let data = importance::observations(
                    self.trials(),
                    if self.aims().len() > 0 {
                        self.aims()[0].0
                    } else {
                        ""@
                    },
                );
                importance::is_importance(reals, data, items@)
            },
    {
        let objective = if self.directions.len() > 0 {
            self.directions[0].0.clone()
        } else {
            "".to_owned()
        };
        let history = match self.desk.storage.load_history(self.desk.study) {
            Ok(h) => h,
            Err(e) => {
                return Err(e);
            },
        };
        Ok(importance::importance(&history, objective.as_str(), reals))
    }

    /// The Pareto front of completed trials for a multi-objective study. Completed trials are
    /// offered in order; the returned front holds the non-dominated set.
    pub fn pareto_front(&self) -> (r: Result<ParetoFront, Error>)
        ensures
            self.dependable() && self.store().studies.contains_key(self.study_id()) ==> r is Ok,
            r matches Ok(f) ==> f.well_formed() && f.ranks_by() == objective_models(self.aims())
                && f.front() == front_of(
                objective_models(self.aims()),
                models::pick(self.trials(), trial::if_complete()),
            ),
            forall|i: int|
                outcome::all_are_numbers(objective_models(self.aims()), self.trials()) && 0 <= i
                    < self.trials().len() && outcome::is_measured(
                    objective_models(self.aims()),
                    #[trigger] self.trials()[i],
                ) && r is Ok ==> outcome::some_match(
                    objective_models(self.aims()),
                    r->Ok_0.front(),
                    self.trials()[i],
                ),
    {
        let mut objectives: Vec<crate::metrics::Objective> = Vec::new();
        let mut i: usize = 0;
        while i < self.directions.len()
            invariant
                i <= self.directions@.len(),
                objectives@.len() == i,
                forall|k: int|
                    0 <= k < i ==> (#[trigger] objectives@[k])@ == (ObjectiveModel {
                        name: self.directions@[k].0@,
                        direction: self.directions@[k].1,
                    }),
            decreases self.directions@.len() - i,
        {
            objectives.push(
                crate::metrics::Objective {
                    name: self.directions[i].0.clone(),
                    direction: self.directions[i].1,
                },
            );
            i += 1;
        }
        let ghost objs = objective_models(self.aims());
        proof {
            assert(models::of(objectives@) =~= objs);
        }
        let mut front = ParetoFront::new(objectives);
        let history = match self.desk.storage.load_history(self.desk.study) {
            Ok(h) => h,
            Err(e) => {
                return Err(e);
            },
        };
        let done = history.completed();
        let ghost dm = models::pick(self.trials(), trial::if_complete());
        let mut k: usize = 0;
        proof {
            assert(dm.take(0).len() == 0);
        }
        while k < done.len()
            invariant
                k <= done@.len(),
                done@.map_values(|t: &TrialRecord| t@) == dm,
                front.ranks_by() == objs,
                front.well_formed(),
                front.front() == front_of(objs, dm.take(k as int)),
            decreases done@.len() - k,
        {
            let rec = done[k];
            proof {
                assert(dm[k as int] == done@.map_values(|t: &TrialRecord| t@)[k as int]);
                assert(dm.take(k + 1).drop_last() =~= dm.take(k as int));
                assert(dm.take(k + 1).last() == rec@);
            }
            if let Some(metrics) = &rec.final_metrics {
                let _added = front.insert(rec.id, metrics);
            }
            k += 1;
        }
        proof {
            assert(dm.take(k as int) =~= dm);
            if outcome::all_are_numbers(objs, self.trials()) {
                outcome::law_the_front_matches_every_trial(objs, self.trials());
            }
        }
        Ok(front)
    }
}

impl<R: Reals> Study<InMemoryStorage, Unset, NoPruner, R> {
    /// Start building a study over the given search space.
    pub fn builder(space: SearchSpace, reals: R) -> (b: StudyBuilder<
        InMemoryStorage,
        Unset,
        NoPruner,
        R,
    >)
        ensures
            b.called() == "study"@,
            b.searches() == space@,
            b.aims() == Seq::<(Seq<char>, Direction)>::empty(),
            b.batch_size() == 1,
            b.seeded() == 0,
            b.keeps().blank(),
            b.keeps().model().consistent(),
            b.keeps().dependable(),
            b.prunes() == NoPruner,
            b.asks() == reals,
    {
        StudyBuilder::new(space, reals)
    }
}

/// No sampler has been chosen yet: the study will sample at random from its seed.
#[derive(Debug, Clone, Copy)]
pub struct Unset;

/// Builder for [`Study`].
pub struct StudyBuilder<S, A, P, R> {
    name: String,
    space: SearchSpace,
    directions: Vec<(String, Direction)>,
    storage: S,
    sampler: A,
    pruner: P,
    reals: R,
    batch: usize,
    base_seed: u64,
}

impl<R: Reals> StudyBuilder<InMemoryStorage, Unset, NoPruner, R> {
    /// Start a builder over the given space: named "study", in memory, without pruning, running
    /// one trial at a time from seed 0. Floating-point arithmetic is asked of `reals`.
    pub fn new(space: SearchSpace, reals: R) -> (b: Self)
        ensures
            b.called() == "study"@,
            b.searches() == space@,
            b.aims() == Seq::<(Seq<char>, Direction)>::empty(),
            b.batch_size() == 1,
            b.seeded() == 0,
            b.keeps().blank(),
            b.keeps().model().consistent(),
            b.keeps().dependable(),
            b.prunes() == NoPruner,
            b.asks() == reals,
    {
        let b = StudyBuilder {
            name: "study".to_owned(),
            space,
            directions: Vec::new(),
            storage: InMemoryStorage::new(),
            sampler: Unset,
            pruner: NoPruner,
            reals,
            batch: 1,
            base_seed: 0,
        };
        proof {
            assert(b.aims() =~= Seq::<(Seq<char>, Direction)>::empty());
        }
        b
    }
}

impl<S, A, P, R: Reals> StudyBuilder<S, A, P, R> {
    /// The study name.
    pub closed spec fn called(self) -> Seq<char> {
        self.name@
    }

    /// The search space.
    pub closed spec fn searches(self) -> space::SpaceModel {
        self.space@
    }

    /// The objectives and their directions.
    pub closed spec fn aims(self) -> Seq<(Seq<char>, Direction)> {
        storage::directions_model(self.directions@)
    }

    /// The ask-batch size.
    pub closed spec fn batch_size(self) -> usize {
        self.batch
    }

    /// The base seed.
    pub closed spec fn seeded(self) -> u64 {
        self.base_seed
    }

    /// The storage backend.
    pub closed spec fn keeps(self) -> S {
        self.storage
    }

    /// The sampler.
    pub closed spec fn samples(self) -> A {
        self.sampler
    }

    /// The pruner.
    pub closed spec fn prunes(self) -> P {
        self.pruner
    }

    /// Who is asked for floating-point arithmetic.
    pub closed spec fn asks(self) -> R {
        self.reals
    }

    /// The objectives that the study will have: a single minimized "objective" by default.
    pub open spec fn final_aims(self) -> Seq<(Seq<char>, Direction)> {
        if self.aims().len() == 0 {
            seq![("objective"@, Direction::Minimize)]
        } else {
            self.aims()
        }
    }

    /// Whether two builders agree on everything but their name, aims, batch size and seed.
    pub open spec fn same_parts(self, other: Self) -> bool {
        &&& self.searches() == other.searches()
        &&& self.keeps() == other.keeps()
        &&& self.samples() == other.samples()
        &&& self.prunes() == other.prunes()
        &&& self.asks() == other.asks()
    }

    /// Set a human-readable study name (provenance).
    pub fn name(self, name: &str) -> (b: Self)
        ensures
            b.same_parts(self),
            b.called() == name@,
            b.aims() == self.aims(),
            b.batch_size() == self.batch_size(),
            b.seeded() == self.seeded(),
    {
        let mut b = self;
        b.name = name.to_owned();
        b
    }

    fn aim(self, objective: &str, direction: Direction) -> (b: Self)
        ensures
            b.same_parts(self),
            b.called() == self.called(),
            b.aims() == self.aims().push((objective@, direction)),
            b.batch_size() == self.batch_size(),
            b.seeded() == self.seeded(),
    {
        let mut b = self;
        b.directions.push((objective.to_owned(), direction));
        proof {
            assert(b.aims() =~= self.aims().push((objective@, direction)));
        }
        b
    }

    /// Add an objective to minimize.
    pub fn minimize(self, objective: &str) -> (b: Self)
        ensures
            b.same_parts(self),
            b.called() == self.called(),
            b.aims() == self.aims().push((objective@, Direction::Minimize)),
            b.batch_size() == self.batch_size(),
            b.seeded() == self.seeded(),
    {
        self.aim(objective, Direction::Minimize)
    }

    /// Add an objective to maximize.
    pub fn maximize(self, objective: &str) -> (b: Self)
        ensures
            b.same_parts(self),
            b.called() == self.called(),
            b.aims() == self.aims().push((objective@, Direction::Maximize)),
            b.batch_size() == self.batch_size(),
            b.seeded() == self.seeded(),
    {
        self.aim(objective, Direction::Maximize)
    }

    /// Provide a sampler (random from the base seed if unset).
    pub fn sampler<B: Sampler<R>>(self, sampler: B) -> (b: StudyBuilder<S, B, P, R>)
        ensures
            b.called() == self.called(),
            b.searches() == self.searches(),
            b.aims() == self.aims(),
            b.batch_size() == self.batch_size(),
            b.seeded() == self.seeded(),
            b.keeps() == self.keeps(),
            b.prunes() == self.prunes(),
            b.samples() == sampler,
            b.asks() == self.asks(),
    {
        StudyBuilder {
            name: self.name,
            space: self.space,
            directions: self.directions,
            storage: self.storage,
            sampler,
            pruner: self.pruner,
            reals: self.reals,
            batch: self.batch,
            base_seed: self.base_seed,
        }
    }

    /// Provide a pruner (nothing is pruned if unset).
    pub fn pruner<Q: Pruner<R>>(self, pruner: Q) -> (b: StudyBuilder<S, A, Q, R>)
        ensures
            b.called() == self.called(),
            b.searches() == self.searches(),
            b.aims() == self.aims(),
            b.batch_size() == self.batch_size(),
            b.seeded() == self.seeded(),
            b.keeps() == self.keeps(),
            b.samples() == self.samples(),
            b.prunes() == pruner,
            b.asks() == self.asks(),
    {
        StudyBuilder {
            name: self.name,
            space: self.space,
            directions: self.directions,
            storage: self.storage,
            sampler: self.sampler,
            pruner,
            reals: self.reals,
            batch: self.batch,
            base_seed: self.base_seed,
        }
    }

    /// Provide a storage backend (in memory if unset).
    pub fn storage<T: Storage>(self, storage: T) -> (b: StudyBuilder<T, A, P, R>)
        ensures
            b.called() == self.called(),
            b.searches() == self.searches(),
            b.aims() == self.aims(),
            b.batch_size() == self.batch_size(),
            b.seeded() == self.seeded(),
            b.samples() == self.samples(),
            b.prunes() == self.prunes(),
            b.keeps() == storage,
            b.asks() == self.asks(),
    {
        StudyBuilder {
            name: self.name,
            space: self.space,
            directions: self.directions,
            storage,
            sampler: self.sampler,
            pruner: self.pruner,
            reals: self.reals,
            batch: self.batch,
            base_seed: self.base_seed,
        }
    }

    /// Ask for trials in batches of `batch` (at least 1), the preferred batch size of the
    /// executor that will run them.
    pub fn batch(self, batch: usize) -> (b: Self)
        ensures
            b.same_parts(self),
            b.called() == self.called(),
            b.aims() == self.aims(),
            b.batch_size() == if batch == 0 {
                1
            } else {
                batch
            },
            b.seeded() == self.seeded(),
    {
        let mut b = self;
        b.batch = if batch == 0 {
            1
        } else {
            batch
        };
        b
    }

    /// Ask for trials in the batches that an executor prefers.
    pub fn executor<E: Executor>(self, executor: &E) -> (b: Self)
        ensures
            b.same_parts(self),
            b.called() == self.called(),
            b.aims() == self.aims(),
            exists|n: usize| #[trigger]
                call_ensures(E::preferred_batch_size, (executor,), n) && b.batch_size() == if n
                    == 0 {
                    1
                } else {
                    n
                },
            b.seeded() == self.seeded(),
    {
        let n: usize = executor.preferred_batch_size();
        self.batch(n)
    }

    /// Set the base seed for deterministic replay.
    pub fn seed(self, seed: u64) -> (b: Self)
        ensures
            b.same_parts(self),
            b.called() == self.called(),
            b.aims() == self.aims(),
            b.batch_size() == self.batch_size(),
            b.seeded() == seed,
    {
        let mut b = self;
        b.base_seed = seed;
        b
    }
}

impl<S: Storage, A: Named + Sampler<R>, P: Pruner<R>, R: Reals> StudyBuilder<S, A, P, R> {
    /// What a finished build says: the space is sound, the study is recorded with its metadata
    /// and has no trials yet.
    pub open spec fn builds(self, s: Study<S, A, P, R>) -> bool {
        &&& space::space_sound(self.searches())
        &&& s.rig() == (Rig {
            space: self.searches(),
            seed: self.seeded(),
            batch: if self.batch_size() == 0 {
                1
            } else {
                self.batch_size()
            },
            dependable: self.keeps().dependable(),
            pruner: self.prunes(),
            reals: self.asks(),
        })
        &&& s.samples() == self.samples()
        &&& s.aims() == self.final_aims()
        &&& !self.keeps().model().studies.contains_key(s.study_id())
        &&& s.store() == self.keeps().model().with_study(s.study_id(), self.describes())
        &&& self.keeps().model().consistent() ==> s.store().consistent() && s.trials().len() == 0
        &&& s.store().studies.contains_key(s.study_id())
    }

    /// What the store will record of the study.
    pub open spec fn describes(self) -> storage::MetaModel {
        storage::MetaModel {
            name: self.called(),
            directions: self.final_aims(),
            sampler_name: self.samples().label(),
            pruner_name: self.prunes().label(),
        }
    }

    /// The objectives that the study will have.
    fn final_directions(&self) -> (r: Vec<(String, Direction)>)
        ensures
            storage::directions_model(r@) == self.final_aims(),
    {
        let mut directions = clone_directions(&self.directions);
        if directions.len() == 0 {
            directions.push(("objective".to_owned(), Direction::Minimize));
        }
        proof {
            assert(storage::directions_model(directions@) =~= self.final_aims());
        }
        directions
    }

    /// Validate the space and create the study record in the store. A space that is not sound is
    /// refused, and a refusal leaves the store as it was; otherwise only the store can fail.
    pub fn record(&mut self) -> (r: Result<StudyId, Error>)
        ensures
            final(self).called() == old(self).called(),
            final(self).searches() == old(self).searches(),
            final(self).aims() == old(self).aims(),
            final(self).batch_size() == old(self).batch_size(),
            final(self).seeded() == old(self).seeded(),
            final(self).samples() == old(self).samples(),
            final(self).prunes() == old(self).prunes(),
            final(self).asks() == old(self).asks(),
            final(self).keeps().dependable() == old(self).keeps().dependable(),
            old(self).keeps().dependable() ==> (r is Ok <==> space::space_sound(
                old(self).searches(),
            )),
            match r {
                Ok(id) => space::space_sound(old(self).searches()) && !old(
                    self,
                ).keeps().model().studies.contains_key(id) && final(self).keeps().model() == old(
                    self,
                ).keeps().model().with_study(id, old(self).describes()),
                Err(e) => final(self).keeps().model() == old(self).keeps().model() && (
                !space::space_sound(old(self).searches()) ==> exists|i: int| #[trigger]
                    space::is_first_unsound(old(self).searches(), i) && space::complains_of(
                        e,
                        old(self).searches(),
                        i,
                    )),
            },
    {
        match self.space.validate() {
            Ok(_) => {},
            Err(e) => {
                return Err(e);
            },
        }
        let meta = StudyMeta {
            name: self.name.clone(),
            directions: self.final_directions(),
            sampler_name: self.sampler.name().to_owned(),
            pruner_name: self.pruner.name().to_owned(),
        };
        self.storage.create_study(meta)
    }

    /// Validate the configuration and create the backing study record. Fails where recording it
    /// fails: on a space that is not sound, and otherwise only when the store fails.
    pub fn build(self) -> (r: Result<Study<S, A, P, R>, Error>)
        ensures
            self.keeps().dependable() ==> (r is Ok <==> space::space_sound(self.searches())),
            match r {
                Ok(s) => self.builds(s),
                Err(e) => !space::space_sound(self.searches()) ==> exists|i: int| #[trigger]
                    space::is_first_unsound(self.searches(), i) && space::complains_of(
                        e,
                        self.searches(),
                        i,
                    ),
            },
    {
        let ghost model = self.keeps().model();
        let mut b = self;
        let id = match b.record() {
            Ok(id) => id,
            Err(e) => {
                return Err(e);
            },
        };
        proof {
            if model.consistent() {
                storage::law_create_keeps_consistency(model, id, self.describes());
            }
        }
        let directions = b.final_directions();
        Ok(
            Study {
                space: b.space,
                sampler: b.sampler,
                directions,
                base_seed: b.base_seed,
                batch: if b.batch == 0 {
                    1
                } else {
                    b.batch
                },
                desk: Desk::new(b.storage, b.pruner, b.reals, id),
            },
        )
    }
}

impl<S: Storage, P: Pruner<R>, R: Reals> StudyBuilder<S, Unset, P, R> {
    /// What a finished build of a study without a sampler of its own says: it is the build with
    /// random sampling from the base seed.
    pub open spec fn builds_random(self, s: Study<S, RandomSampler, P, R>) -> bool {
        exists|b: StudyBuilder<S, RandomSampler, P, R>| #[trigger]
            self.is_randomized(b) && b.builds(s)
    }

    /// Whether `b` is the same builder with random sampling from the base seed.
    pub open spec fn is_randomized(self, b: StudyBuilder<S, RandomSampler, P, R>) -> bool {
        &&& b.called() == self.called()
        &&& b.searches() == self.searches()
        &&& b.aims() == self.aims()
        &&& b.batch_size() == self.batch_size()
        &&& b.seeded() == self.seeded()
        &&& b.keeps() == self.keeps()
        &&& b.prunes() == self.prunes()
        &&& b.asks() == self.asks()
        &&& b.samples().seed() == self.seeded()
    }

    /// Validate the configuration and create the backing study record, sampling at random from
    /// the base seed. Fails on a space that is not sound, and otherwise only when the store fails.
    pub fn build(self) -> (r: Result<Study<S, RandomSampler, P, R>, Error>)
        ensures
            self.keeps().dependable() ==> (r is Ok <==> space::space_sound(self.searches())),
            match r {
                Ok(s) => self.builds_random(s),
                Err(e) => !space::space_sound(self.searches()) ==> exists|i: int| #[trigger]
                    space::is_first_unsound(self.searches(), i) && space::complains_of(
                        e,
                        self.searches(),
                        i,
                    ),
            },
    {
        let b = self.random();
        proof {
            assert(self.is_randomized(b));
        }
        b.build()
    }

    /// The same builder with random sampling from the base seed.
    pub fn random(self) -> (b: StudyBuilder<S, RandomSampler, P, R>)
        ensures
            self.is_randomized(b),
    {
        let seed = self.base_seed;
        self.sampler(RandomSampler::new(seed))
    }
}

} // verus!
