//! Supervision of crash-isolated worker processes.
//!
//! A pool runs rounds of worker processes against a shared, lease-backed store until every
//! trial of the study has reached a terminal state or the restarts are used up. Between rounds
//! no worker is alive, so every outstanding lease belongs to a dead process and is recovered.
//! What happens next is decided here; starting processes and waiting for them is the caller's.

use vstd::prelude::*;
use crate::text::{join, wide_decimal_text};
use crate::trial::{HistoryModel, TrialHistory};
#[allow(unused_imports)]
use crate::models;
#[allow(unused_imports)]
use crate::text;

verus! {

/// How a run drained.
#[derive(Debug, Clone, Copy, PartialEq, Eq, Structural)]
pub struct ProcessReport {
    /// Number of supervision rounds executed (initial spawn and restarts).
    pub rounds: u128,
    /// Total worker processes spawned across all rounds.
    pub spawned: u128,
    /// Worker processes that exited with a non-zero status.
    pub crashed: u128,
    /// Whether every trial of the study reached a terminal state.
    pub drained: bool,
}

/// A supervisor that runs trials in crash-isolated worker processes.
///
/// Each process is the program followed by the base arguments and, last, a unique worker id:
/// `w0`, `w1` and so on, numbered on from round to round.
#[derive(Debug)]
pub struct ProcessPool {
    /// The worker program.
    pub program: String,
    /// Arguments passed to every worker before its id.
    pub base_args: Vec<String>,
    /// Environment variables set on every worker.
    pub envs: Vec<(String, String)>,
    /// Worker processes per round.
    pub workers: usize,
    /// The lease duration that the workers use, in milliseconds.
    pub lease_ttl_ms: u64,
    /// Restart rounds after the first before giving up.
    pub max_restarts: usize,
}

/// Whether every trial has reached a terminal state.
pub open spec fn drained(trials: HistoryModel) -> bool {
    forall|i: int| 0 <= i < trials.len() ==> (#[trigger] trials[i]).state.terminal()
}

/// The id of the worker that is spawned as number `n`, from zero.
pub open spec fn worker_name(n: nat) -> Seq<char> {
    "w"@ + text::decimal(n)
}

/// The number of worker `w` of a round, over all rounds.
pub open spec fn worker_number(workers: usize, round: nat, w: nat) -> nat {
    round * workers as nat + w
}

/// No two workers of a run share an id.
pub proof fn law_worker_ids_are_unique(
    workers: usize,
    round: nat,
    w: nat,
    other_round: nat,
    other: nat,
)
    requires
        w < workers,
        other < workers,
        worker_name(worker_number(workers, round, w)) == worker_name(
            worker_number(workers, other_round, other),
        ),
    ensures
        round == other_round,
        w == other,
{
    let (m, n) = (
        worker_number(workers, round, w),
        worker_number(workers, other_round, other),
    );
    let (a, b) = (text::decimal(m), text::decimal(n));
    assert(("w"@ + a).skip("w"@.len() as int) =~= a);
    assert(("w"@ + b).skip("w"@.len() as int) =~= b);
    text::decimal_is_injective(m, n);
    let size = workers as int;
    vstd::arithmetic::div_mod::lemma_fundamental_div_mod_converse(
        m as int,
        size,
        round as int,
        w as int,
    );
    vstd::arithmetic::div_mod::lemma_fundamental_div_mod_converse(
        n as int,
        size,
        other_round as int,
        other as int,
    );
}

impl ProcessPool {
    /// A pool that launches `program` as its worker binary.
    pub fn new(program: &str) -> (p: Self)
        ensures
            p.program@ == program@,
            p.base_args@.len() == 0,
            p.envs@.len() == 0,
            p.workers == 1,
            p.lease_ttl_ms == 30_000,
            p.max_restarts == 8,
    {
        ProcessPool {
            program: program.to_owned(),
            base_args: Vec::new(),
            envs: Vec::new(),
            workers: 1,
            lease_ttl_ms: 30_000,
            max_restarts: 8,
        }
    }

    /// Append a base argument passed to every spawned worker before its id.
    pub fn arg(self, arg: &str) -> (p: Self)
        ensures
            models::of(p.base_args@) == models::of(self.base_args@).push(arg@),
            p == (ProcessPool { base_args: p.base_args, ..self }),
    {
        let mut p = self;
        p.base_args.push(arg.to_owned());
        proof {
            assert(models::of(p.base_args@) =~= models::of(self.base_args@).push(arg@));
        }
        p
    }

    /// Set an environment variable on every spawned worker process.
    pub fn env(self, key: &str, value: &str) -> (p: Self)
        ensures
            p.envs@.len() == self.envs@.len() + 1,
            forall|i: int| 0 <= i < self.envs@.len() ==> #[trigger] p.envs@[i] == self.envs@[i],
            p.envs@.last().0@ == key@,
            p.envs@.last().1@ == value@,
            p == (ProcessPool { envs: p.envs, ..self }),
    {
        let mut p = self;
        p.envs.push((key.to_owned(), value.to_owned()));
        p
    }

    /// Number of worker processes per round (at least 1).
    pub fn workers(self, n: usize) -> (p: Self)
        ensures
            p == (ProcessPool {
                workers: if n < 1 {
                    1
                } else {
                    n
                },
                ..self
            }),
    {
        let mut p = self;
        p.workers = if n < 1 {
            1
        } else {
            n
        };
        p
    }

    /// The lease duration the workers use (at least 1).
    pub fn lease_ttl_ms(self, ttl: u64) -> (p: Self)
        ensures
            p == (ProcessPool {
                lease_ttl_ms: if ttl < 1 {
                    1
                } else {
                    ttl
                },
                ..self
            }),
    {
        let mut p = self;
        p.lease_ttl_ms = if ttl < 1 {
            1
        } else {
            ttl
        };
        p
    }

    /// Maximum restart rounds after the first, before giving up.
    pub fn max_restarts(self, n: usize) -> (p: Self)
        ensures
            p == (ProcessPool { max_restarts: n, ..self }),
    {
        let mut p = self;
        p.max_restarts = n;
        p
    }

    /// Whether every trial in the study has reached a terminal state.
    pub fn is_drained(history: &TrialHistory) -> (r: bool)
        ensures
            r == drained(history@),
    {
        let records = history.records();
        let mut i: usize = 0;
        while i < records.len()
            invariant
                i <= records@.len(),
                records@.len() == history@.len(),
                forall|k: int|
                    0 <= k < records@.len() ==> (#[trigger] records@[k])@ == history@[k],
                forall|k: int| 0 <= k < i ==> (#[trigger] history@[k]).state.terminal(),
            decreases records@.len() - i,
        {
            proof {
                assert(records@[i as int]@ == history@[i as int]);
            }
            if !records[i].state.is_terminal() {
                return false;
            }
            i += 1;
        }
        true
    }

    /// The arguments of worker `w` of a round: the base arguments, then its id.
    pub fn arguments(&self, round: usize, w: usize) -> (args: Vec<String>)
        ensures
            models::of(args@) == models::of(self.base_args@).push(
                worker_name(worker_number(self.workers, round as nat, w as nat)),
            ),
    {
        let mut args: Vec<String> = Vec::new();
        let mut i: usize = 0;
        while i < self.base_args.len()
            invariant
                i <= self.base_args@.len(),
                args@.len() == i,
                forall|k: int| 0 <= k < i ==> (#[trigger] args@[k])@ == self.base_args@[k]@,
            decreases self.base_args@.len() - i,
        {
            args.push(self.base_args[i].clone());
            i += 1;
        }
        proof {
            let (r, n) = (round as int, self.workers as int);
            assert(0 <= r * n <= 0xffff_ffff_ffff_ffff * 0xffff_ffff_ffff_ffff) by (nonlinear_arith)
                requires
                    0 <= r <= 0xffff_ffff_ffff_ffff,
                    0 <= n <= 0xffff_ffff_ffff_ffff,
            ;
        }
        let number: u128 = round as u128 * self.workers as u128 + w as u128;
        args.push(join("w", wide_decimal_text(number).as_str()));
        proof {
            assert(models::of(args@) =~= models::of(self.base_args@).push(
                worker_name(worker_number(self.workers, round as nat, w as nat)),
            ));
        }
        args
    }

    /// A time past every lease taken before `now_ms`.
    pub fn horizon(&self, now_ms: u64) -> (t: u64)
        ensures
            t == if now_ms + self.lease_ttl_ms + 1 <= u64::MAX {
                now_ms + self.lease_ttl_ms + 1
            } else {
                u64::MAX as int
            },
    {
        let mut t = now_ms;
        t = if t <= u64::MAX - self.lease_ttl_ms {
            t + self.lease_ttl_ms
        } else {
            u64::MAX
        };
        if t < u64::MAX {
            t + 1
        } else {
            t
        }
    }

    /// The beginning of a run: the study is to be inspected.
    pub fn start(&self) -> (s: Supervision)
        ensures
            s == (Supervision {
                round: 0,
                report: ProcessReport { rounds: 0, spawned: 0, crashed: 0, drained: false },
            }),
            s.well_formed(self.workers, self.max_restarts),
    {
        Supervision {
            round: 0,
            report: ProcessReport { rounds: 0, spawned: 0, crashed: 0, drained: false },
        }
    }

    /// What to do once the study was inspected: stop when it is drained or the restarts are
    /// used up, and run a round of workers otherwise.
    pub fn inspected(&self, s: Supervision, is_drained: bool) -> (d: Decision)
        requires
            s.well_formed(self.workers, self.max_restarts),
        ensures
            d == if is_drained || s.round > self.max_restarts {
                Decision::Stop(ProcessReport { drained: is_drained, ..s.report })
            } else {
                Decision::Run(s.round as usize)
            },
    {
        if is_drained || s.round > self.max_restarts as u128 {
            let mut report = s.report;
            report.drained = is_drained;
            Decision::Stop(report)
        } else {
            Decision::Run(s.round as usize)
        }
    }

    /// The state after a round in which `crashed` of the workers failed.
    pub fn finished(&self, s: Supervision, crashed: usize) -> (next: Supervision)
        requires
            s.well_formed(self.workers, self.max_restarts),
            s.round <= self.max_restarts,
            crashed <= self.workers,
        ensures
            next == (Supervision {
                round: (s.round + 1) as u128,
                report: ProcessReport {
                    rounds: (s.round + 1) as u128,
                    spawned: (s.report.spawned + self.workers) as u128,
                    crashed: (s.report.crashed + crashed) as u128,
                    drained: false,
                },
            }),
            next.well_formed(self.workers, self.max_restarts),
    {
        proof {
            let (r, w) = (s.round as int, self.workers as int);
            assert((r + 1) * w == r * w + w) by (nonlinear_arith);
            assert(0 <= r * w <= 0xffff_ffff_ffff_ffff * 0xffff_ffff_ffff_ffff) by (nonlinear_arith)
                requires
                    0 <= r <= 0xffff_ffff_ffff_ffff,
                    0 <= w <= 0xffff_ffff_ffff_ffff,
            ;
        }
        Supervision {
            round: s.round + 1,
            report: ProcessReport {
                rounds: s.round + 1,
                spawned: s.report.spawned + self.workers as u128,
                crashed: s.report.crashed + crashed as u128,
                drained: false,
            },
        }
    }
}

/// Where a run stands: how many rounds were run, and what came of them.
#[derive(Debug, Clone, Copy, PartialEq, Eq, Structural)]
pub struct Supervision {
    /// Rounds run so far.
    pub round: u128,
    /// The report so far.
    pub report: ProcessReport,
}

impl Supervision {
    /// Whether the report accounts for the rounds: every round ran all workers, and no more
    /// crashed than ran.
    pub open spec fn well_formed(self, workers: usize, max_restarts: usize) -> bool {
        &&& self.round <= max_restarts + 1
        &&& self.report.rounds == self.round
        &&& self.report.spawned == self.round * workers
        &&& self.report.crashed <= self.report.spawned
        &&& !self.report.drained
    }
}

/// What to do next.
#[derive(Debug, Clone, Copy, PartialEq, Eq, Structural)]
pub enum Decision {
    /// Run a round of workers, then recover every lease.
    Run(usize),
    /// Stop with this report.
    Stop(ProcessReport),
}

/// A run ends drained or after all its restarts, and its report accounts for every round.
pub proof fn law_run_ends_accounted(
    s: Supervision,
    workers: usize,
    max_restarts: usize,
    is_drained: bool,
)
    requires
        s.well_formed(workers, max_restarts),
        is_drained || s.round > max_restarts,
    ensures
        ({
            let r = ProcessReport { drained: is_drained, ..s.report };
            &&& r.drained || r.rounds == max_restarts + 1
            &&& r.spawned == r.rounds * workers
            &&& r.crashed <= r.spawned
        }),
{
}

} // verus!
