//! Executors: where trials actually run.
//!
//! The sequential executor runs jobs one after the other; the thread executor deals them out to
//! a fixed number of threads.

use vstd::prelude::*;
use crate::names::NameMap;

verus! {

/// One whole unit of a fractional resource, counted in billionths.
pub const UNIT: u64 = 1_000_000_000;

/// CPU, GPU, memory and custom resource declarations. Fractional amounts are counted in
/// billionths, so adding and comparing them is exact.
#[derive(Debug)]
pub struct ResourceSpec {
    /// CPU cores, in billionths (fractional for shared cores).
    pub cpus: u64,
    /// GPUs, in billionths (fractional for shared devices).
    pub gpus: u64,
    /// Memory in megabytes.
    pub memory_mb: u64,
    /// Arbitrary named resources (e.g. `"tpu"`), in billionths.
    pub custom: NameMap<u64>,
}

/// What a [`ResourceSpec`] stands for in contracts.
pub struct ResourceModel {
    /// CPU cores, in billionths.
    pub cpus: u64,
    /// GPUs, in billionths.
    pub gpus: u64,
    /// Memory in megabytes.
    pub memory_mb: u64,
    /// Named resources, in billionths.
    pub custom: Map<Seq<char>, u64>,
}

impl View for ResourceSpec {
    type V = ResourceModel;

    open spec fn view(&self) -> ResourceModel {
        ResourceModel {
            cpus: self.cpus,
            gpus: self.gpus,
            memory_mb: self.memory_mb,
            custom: self.custom@,
        }
    }
}

impl Clone for ResourceSpec {
    fn clone(&self) -> (r: Self)
        ensures
            r@ == self@,
    {
        let r = ResourceSpec {
            cpus: self.cpus,
            gpus: self.gpus,
            memory_mb: self.memory_mb,
            custom: self.custom.clone(),
        };
        proof {
            assert(r.custom.pairs() =~= self.custom.pairs());
        }
        r
    }
}

impl Default for ResourceSpec {
    fn default() -> (r: Self)
        ensures
            r@ == (ResourceModel { cpus: UNIT, gpus: 0, memory_mb: 0, custom: Map::empty() }),
    {
        ResourceSpec { cpus: UNIT, gpus: 0, memory_mb: 0, custom: NameMap::new() }
    }
}

impl ResourceSpec {
    /// A spec requesting `cpus` billionths of a CPU core and nothing else.
    pub fn cpus(cpus: u64) -> (r: Self)
        ensures
            r@ == (ResourceModel { cpus, gpus: 0, memory_mb: 0, custom: Map::empty() }),
    {
        ResourceSpec { cpus, gpus: 0, memory_mb: 0, custom: NameMap::new() }
    }

    /// Add a GPU request, in billionths.
    pub fn with_gpus(self, gpus: u64) -> (r: Self)
        ensures
            r@ == (ResourceModel { gpus, ..self@ }),
    {
        let mut r = self;
        r.gpus = gpus;
        r
    }

    /// Add a memory request in megabytes.
    pub fn with_memory_mb(self, memory_mb: u64) -> (r: Self)
        ensures
            r@ == (ResourceModel { memory_mb, ..self@ }),
    {
        let mut r = self;
        r.memory_mb = memory_mb;
        r
    }
}

/// Whether every job can be run.
pub open spec fn runnable<F: FnOnce()>(jobs: Seq<F>) -> bool {
    forall|i: int| 0 <= i < jobs.len() ==> call_requires(#[trigger] jobs[i], ())
}

/// Whether every job has been run.
pub open spec fn all_ran<F: FnOnce()>(jobs: Seq<F>) -> bool {
    forall|i: int| 0 <= i < jobs.len() ==> call_ensures(#[trigger] jobs[i], (), ())
}

/// Runs batches of trial jobs, possibly concurrently.
pub trait Executor {
    /// Run every job in the batch, blocking until all have finished, and say whether all of
    /// them ran to their end. The order in which jobs run is unspecified.
    fn run_all<F: FnOnce() + Send>(&self, jobs: Vec<F>) -> (done: bool)
        requires
            runnable(jobs@),
        ensures
            done ==> all_ran(jobs@),
    ;

    /// The executor's resource capacity, used for scheduling decisions.
    fn capacity(&self) -> ResourceSpec;

    /// How many jobs this executor prefers to receive per batch. The study uses it as the
    /// ask-batch size; `1` yields the deterministic sequential path.
    fn preferred_batch_size(&self) -> usize;

    /// A short, stable name for provenance and logging.
    fn name(&self) -> &'static str;
}

/// Runs the jobs one after the other, in order.
fn run_in_order<F: FnOnce()>(jobs: Vec<F>)
    requires
        runnable(jobs@),
    ensures
        all_ran(jobs@),
{
    let ghost all = jobs@;
    let mut rest = jobs;
    let ghost mut ran: int = 0;
    while rest.len() > 0
        invariant
            0 <= ran <= all.len(),
            rest@ == all.skip(ran),
            runnable(all),
            forall|i: int| 0 <= i < ran ==> call_ensures(#[trigger] all[i], (), ()),
        decreases rest@.len(),
    {
        let job = rest.remove(0);
        proof {
            assert(job == all[ran]);
            assert(all.skip(ran).remove(0) =~= all.skip(ran + 1));
        }
        job();
        proof {
            ran = ran + 1;
        }
    }
}

/// In-process, single-threaded executor. Deterministic; the default tier.
#[derive(Debug, Clone, Copy, Default)]
pub struct SequentialExecutor;

impl Executor for SequentialExecutor {
    fn run_all<F: FnOnce() + Send>(&self, jobs: Vec<F>) -> (done: bool)
        ensures
            done,
    {
        run_in_order(jobs);
        true
    }

    fn capacity(&self) -> (r: ResourceSpec)
        ensures
            r@ == (ResourceModel { cpus: UNIT, gpus: 0, memory_mb: 0, custom: Map::empty() }),
    {
        ResourceSpec::cpus(UNIT)
    }

    fn preferred_batch_size(&self) -> (n: usize)
        ensures
            n == 1,
    {
        1
    }

    fn name(&self) -> (r: &'static str)
        ensures
            r@ == "sequential"@,
    {
        "sequential"
    }
}

/// In-process, fixed-size thread pool for cheap CPU-bound objectives: it deals the jobs of a
/// batch out to buckets, one bucket per thread.
#[derive(Debug, Clone, Copy)]
pub struct ThreadExecutor {
    max_threads: usize,
}

/// Whether job `i` is the `i / n`-th of bucket `i % n`, where there are `n` buckets.
pub open spec fn in_place<F>(jobs: Seq<F>, buckets: Seq<Seq<F>>, i: int) -> bool {
    let n = buckets.len() as int;
    i / n < buckets[i % n].len() && buckets[i % n][i / n] == jobs[i]
}

/// Whether `buckets` deals `jobs` out in turn.
pub open spec fn dealt<F>(jobs: Seq<F>, buckets: Seq<Seq<F>>) -> bool {
    forall|i: int| 0 <= i < jobs.len() ==> #[trigger] in_place(jobs, buckets, i)
}

/// The contents of a list of buckets.
pub open spec fn contents<F>(buckets: Seq<Vec<F>>) -> Seq<Seq<F>> {
    buckets.map_values(|b: Vec<F>| b@)
}

impl ThreadExecutor {
    /// The number of threads.
    pub closed spec fn threads(self) -> int {
        self.max_threads as int
    }

    #[verifier::type_invariant]
    spec fn has_a_thread(self) -> bool {
        self.max_threads >= 1
    }

    /// A thread executor using up to `max_threads` worker threads (at least 1).
    pub fn new(max_threads: usize) -> (t: Self)
        ensures
            t.threads() == if max_threads == 0 {
                1
            } else {
                max_threads as int
            },
    {
        ThreadExecutor {
            max_threads: if max_threads == 0 {
                1
            } else {
                max_threads
            },
        }
    }

    /// Deals the jobs out in turn to as many buckets as there are threads to use: no more than
    /// there are jobs, and no more than the executor has threads.
    pub fn buckets<F>(&self, jobs: Vec<F>) -> (buckets: Vec<Vec<F>>)
        requires
            jobs@.len() > 0,
        ensures
            buckets@.len() == if self.threads() < jobs@.len() {
                self.threads()
            } else {
                jobs@.len() as int
            },
            dealt(jobs@, contents(buckets@)),
            forall|b: int, k: int|
                0 <= b < buckets@.len() && 0 <= k < buckets@[b]@.len() ==> jobs@.contains(
                    #[trigger] buckets@[b]@[k],
                ),
    {
        proof {
            use_type_invariant(self);
        }
        let count = jobs.len();
        let n: usize = if self.max_threads < count {
            self.max_threads
        } else {
            count
        };
        let mut buckets: Vec<Vec<F>> = Vec::new();
        let mut b: usize = 0;
        while b < n
            invariant
                b <= n,
                buckets@.len() == b,
                forall|k: int| 0 <= k < b ==> (#[trigger] buckets@[k])@.len() == 0,
            decreases n - b,
        {
            buckets.push(Vec::new());
            b += 1;
        }
        let ghost all = jobs@;
        let mut rest = jobs;
        let mut i: usize = 0;
        proof {
            assert(all.skip(0) =~= all);
        }
        while i < count
            invariant
                count == all.len(),
                1 <= n,
                i <= count,
                rest@ == all.skip(i as int),
                buckets@.len() == n,
                forall|b: int|
                    0 <= b < n ==> (#[trigger] buckets@[b])@.len() == dealt_count(
                        i as int,
                        n as int,
                        b,
                    ),
                forall|j: int| 0 <= j < i ==> #[trigger] in_place(all, contents(buckets@), j),
                forall|b: int, k: int|
                    0 <= b < n && 0 <= k < buckets@[b]@.len() ==> all.contains(
                        #[trigger] buckets@[b]@[k],
                    ),
            decreases count - i,
        {
            let job = rest.remove(0);
            let to: usize = i % n;
            let ghost before = buckets@;
            proof {
                assert(job == all[i as int]);
                assert(all.skip(i as int).remove(0) =~= all.skip(i + 1));
                dealt_count_step(i as int, n as int);
            }
            buckets[to].push(job);
            proof {
                assert(buckets@[to as int]@ == before[to as int]@.push(job));
                assert forall|b: int| 0 <= b < n && b != to implies buckets@[b] == before[b] by {}
                assert forall|j: int| 0 <= j < i + 1 implies #[trigger] in_place(
                    all,
                    contents(buckets@),
                    j,
                ) by {
                    let d = j % (n as int);
                    let q = j / (n as int);
                    assert(0 <= d < n && q >= 0) by (nonlinear_arith)
                        requires
                            d == j % (n as int),
                            q == j / (n as int),
                            j >= 0,
                            n >= 1,
                    ;
                    if j < i {
                        assert(in_place(all, contents(before), j));
                        assert(contents(before)[d] == before[d]@);
                    }
                    assert(contents(buckets@)[d] == buckets@[d]@);
                }
                assert forall|b: int, k: int|
                    0 <= b < n && 0 <= k < buckets@[b]@.len() implies all.contains(
                    #[trigger] buckets@[b]@[k],
                ) by {
                    if b == to && k == before[b]@.len() {
                        assert(buckets@[b]@[k] == all[i as int]);
                    } else {
                        assert(buckets@[b]@[k] == before[b]@[k]);
                    }
                }
            }
            i += 1;
        }
        buckets
    }
}

/// How many of the first `i` jobs go to bucket `b` of `n`.
pub open spec fn dealt_count(i: int, n: int, b: int) -> int {
    i / n + if b < i % n {
        1int
    } else {
        0
    }
}

proof fn dealt_count_step(i: int, n: int)
    requires
        i >= 0,
        n >= 1,
    ensures
        dealt_count(i, n, i % n) == i / n,
        dealt_count(i + 1, n, i % n) == i / n + 1,
        forall|b: int|
            0 <= b < n && b != i % n ==> #[trigger] dealt_count(i + 1, n, b) == dealt_count(
                i,
                n,
                b,
            ),
        0 <= i % n < n,
        i / n >= 0,
{
    let q = i / n;
    let r = i % n;
    vstd::arithmetic::div_mod::lemma_fundamental_div_mod(i, n);
    assert(0 <= r < n && q >= 0) by (nonlinear_arith)
        requires
            r == i % n,
            q == i / n,
            i >= 0,
            n >= 1,
    ;
    if r + 1 < n {
        vstd::arithmetic::div_mod::lemma_fundamental_div_mod_converse(i + 1, n, q, r + 1);
    } else {
        assert(i + 1 == n * (q + 1)) by (nonlinear_arith)
            requires
                i == n * q + r,
                r + 1 == n,
        ;
        vstd::arithmetic::div_mod::lemma_fundamental_div_mod_converse(i + 1, n, q + 1, 0);
    }
}

impl ThreadExecutor {
    /// One CPU core per thread.
    pub fn capacity(&self) -> (r: ResourceSpec)
        ensures
            r@ == (ResourceModel {
                cpus: if self.threads() * UNIT <= u64::MAX {
                    (self.threads() * UNIT) as u64
                } else {
                    u64::MAX
                },
                gpus: 0,
                memory_mb: 0,
                custom: Map::empty(),
            }),
    {
        proof {
            let (t, u) = (self.max_threads as int, UNIT as int);
            assert(0 <= t * u <= 0xffff_ffff_ffff_ffff * 1_000_000_000) by (nonlinear_arith)
                requires
                    0 <= t <= 0xffff_ffff_ffff_ffff,
                    u == 1_000_000_000,
            ;
        }
        let wide: u128 = self.max_threads as u128 * UNIT as u128;
        ResourceSpec::cpus(
            if wide <= u64::MAX as u128 {
                wide as u64
            } else {
                u64::MAX
            },
        )
    }

    /// As many jobs per batch as there are threads.
    pub fn preferred_batch_size(&self) -> (n: usize)
        ensures
            n == self.threads(),
    {
        self.max_threads
    }

    /// A short, stable name for provenance and logging.
    pub fn name(&self) -> (r: &'static str)
        ensures
            r@ == "thread"@,
    {
        "thread"
    }
}

} // verus!
