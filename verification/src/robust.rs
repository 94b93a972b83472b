//! Robust aggregation for noisy objectives.
//!
//! A noisy objective is evaluated several times under different seeds, and the replicates are
//! reduced to a single, outlier-resistant point estimate plus a spread that quantifies
//! confidence.

use vstd::prelude::*;
use crate::error::Error;
use crate::metrics::NamedMetrics;
use crate::names::NameMap;
#[allow(unused_imports)]
use crate::objective::{Outcome, ReportLog, ReportSink};
#[allow(unused_imports)]
use crate::objective;
use crate::order::{middle_of, sorted_numbers, Middle};
use crate::reals::Reals;
use crate::scalar::Scalar;
use crate::text::join;
use crate::trial::Metrics;
#[allow(unused_imports)]
use crate::models;
#[allow(unused_imports)]
use crate::names;
#[allow(unused_imports)]
use crate::order;
#[allow(unused_imports)]
use crate::reals;
#[allow(unused_imports)]
use crate::trial;

verus! {

/// How to reduce a set of replicate scores to one robust point estimate.
#[derive(Debug, Clone, Copy, PartialEq, Eq, Structural)]
pub enum Aggregator {
    /// Arithmetic mean: lowest variance when the noise is well-behaved, but sensitive to
    /// outliers.
    Mean,
    /// Median: the robust default, unaffected by a minority of outlier runs.
    Median,
    /// Mean after trimming the given fraction from each tail.
    TrimmedMean(Scalar),
}

/// The greatest share that may be trimmed from a tail.
pub const MOST_TRIMMED: u64 = 0x3fdf_5c28_f5c2_8f5c;

/// Whether `v` is the median of the numbers among `values`: the one in the middle, or the
/// average of the two; zero when there are none.
pub open spec fn is_median<R: Reals>(reals: &R, values: Seq<Scalar>, v: Scalar) -> bool {
    exists|m: Middle| #[trigger]
        order::is_middle(values, m) && match m {
            Middle::Nothing => v.pattern() == 0,
            Middle::One(x) => v == x,
            Middle::Two(a, b) => reals::is_midpoint(reals, a, b, v),
        }
}

/// Whether `v` is the mean of a sorted list without `cut` numbers at each end, or the median of
/// `scores` where nothing is left of it.
pub open spec fn is_trimmed_mean<R: Reals>(
    reals: &R,
    scores: Seq<Scalar>,
    sorted: Seq<Scalar>,
    cut: usize,
    v: Scalar,
) -> bool {
    if kept(sorted, cut as int).len() == 0 {
        is_median(reals, scores, v)
    } else {
        reals::is_mean(reals, kept(sorted, cut as int), v)
    }
}

/// Whether `v` is the estimate of `scores`: the mean of the numbers among them in ascending
/// order, their median, or their mean without the tails.
pub open spec fn estimates<R: Reals>(
    reals: &R,
    a: Aggregator,
    scores: Seq<Scalar>,
    v: Scalar,
) -> bool {
    match a {
        Aggregator::Mean => exists|sorted: Seq<Scalar>| #[trigger]
            order::is_ascending(order::numbers(scores), sorted) && reals::is_mean(
                reals,
                sorted,
                v,
            ),
        Aggregator::Median => is_median(reals, scores, v),
        Aggregator::TrimmedMean(fraction) => {
            let share = fraction.clamped(Scalar { bits: 0 }, Scalar { bits: MOST_TRIMMED });
            exists|sorted: Seq<Scalar>, cut: usize| #[trigger]
                order::is_ascending(order::numbers(scores), sorted) && #[trigger] reals::is_tail(
                    reals,
                    share,
                    sorted.len() as usize,
                    cut,
                ) && is_trimmed_mean(reals, scores, sorted, cut, v)
        },
    }
}

/// The median of an odd number of scores is one of them: the one in the middle.
pub proof fn law_odd_median_is_in_the_middle<R: Reals>(reals: &R, scores: Seq<Scalar>, v: Scalar)
    requires
        estimates(reals, Aggregator::Median, scores, v),
        order::numbers(scores).len() % 2 == 1,
    ensures
        order::is_middle(scores, Middle::One(v)),
{
    let m = choose|m: Middle| #[trigger]
        order::is_middle(scores, m) && match m {
            Middle::Nothing => v.pattern() == 0,
            Middle::One(x) => v == x,
            Middle::Two(a, b) => reals::is_midpoint(reals, a, b, v),
        };
    let sorted = choose|sorted: Seq<Scalar>| #[trigger]
        order::is_ascending(order::numbers(scores), sorted) && m == order::middle(sorted);
    order::ascending_is_increasing(order::numbers(scores), sorted);
}

/// Whether `v` is the spread around the median: an error that the median of the distances from
/// it stands for.
pub open spec fn is_robust_spread<R: Reals>(
    reals: &R,
    scores: Seq<Scalar>,
    sorted: Seq<Scalar>,
    v: Scalar,
) -> bool {
    exists|center: Scalar, distances: Seq<Scalar>, deviation: Scalar| #[trigger]
        is_median(reals, scores, center) && #[trigger] reals::are_distances(
            reals,
            sorted,
            center,
            distances,
        ) && #[trigger] is_median(reals, distances, deviation) && reals::is_deviation_error(
            reals,
            deviation,
            sorted.len() as usize,
            v,
        )
}

/// Selects finite numbers.
pub open spec fn if_finite() -> spec_fn(Scalar) -> Option<Scalar> {
    |s: Scalar|
        if s.finite() {
            Some(s)
        } else {
            None
        }
}

/// How many of `scores` are finite.
fn finite_count(scores: &Vec<Scalar>) -> (n: usize)
    ensures
        n == models::pick(scores@, if_finite()).len(),
{
    let mut n: usize = 0;
    let mut i: usize = 0;
    while i < scores.len()
        invariant
            n <= i <= scores@.len(),
            n == models::pick(scores@.take(i as int), if_finite()).len(),
        decreases scores@.len() - i,
    {
        proof {
            models::pick_step(scores@, i as int, if_finite());
        }
        if scores[i].is_finite() {
            n += 1;
        }
        i += 1;
    }
    proof {
        models::pick_whole(scores@, if_finite());
    }
    n
}

/// Whether `v` is the spread of `scores`: the standard error of the mean of the numbers among
/// them, or one based on the median absolute deviation for the robust estimates; zero for fewer
/// than two finite numbers.
pub open spec fn is_spread<R: Reals>(
    reals: &R,
    a: Aggregator,
    scores: Seq<Scalar>,
    v: Scalar,
) -> bool {
    if models::pick(scores, if_finite()).len() < 2 {
        v.pattern() == 0
    } else {
        exists|sorted: Seq<Scalar>| #[trigger]
            order::is_ascending(order::numbers(scores), sorted) && if a == Aggregator::Mean {
                reals::is_mean_error(reals, sorted, v)
            } else {
                is_robust_spread(reals, scores, sorted, v)
            }
    }
}

/// What is left of a sorted list when `cut` numbers are dropped from each end.
pub open spec fn kept(sorted: Seq<Scalar>, cut: int) -> Seq<Scalar> {
    if 2 * cut < sorted.len() {
        sorted.subrange(cut, sorted.len() - cut)
    } else {
        Seq::empty()
    }
}

/// Drops `cut` numbers from each end of a sorted list.
pub fn trimmed(sorted: &Vec<Scalar>, cut: usize) -> (r: Vec<Scalar>)
    ensures
        r@ == kept(sorted@, cut as int),
{
    let mut out: Vec<Scalar> = Vec::new();
    let n = sorted.len();
    if cut < n && cut < n - cut {
        let end = n - cut;
        let mut i = cut;
        while i < end
            invariant
                cut <= i <= end,
                end == sorted@.len() - cut,
                out@ =~= sorted@.subrange(cut as int, i as int),
            decreases end - i,
        {
            out.push(sorted[i]);
            i += 1;
        }
    }
    out
}

/// The median of the numbers among `values`, or zero when there are none.
fn median<R: Reals>(values: &Vec<Scalar>, reals: &R) -> (v: Scalar)
    ensures
        is_median(reals, values@, v),
{
    let m = middle_of(values);
    match m {
        Middle::Nothing => Scalar::zero(),
        Middle::One(x) => x,
        Middle::Two(a, b) => reals.midpoint(a, b),
    }
}

impl Aggregator {
    /// Reduce `scores` to a single robust estimate. NaNs are ignored; there is nothing to
    /// estimate only when every score is a NaN or there are none.
    pub fn aggregate<R: Reals>(&self, scores: &Vec<Scalar>, reals: &R) -> (r: Option<Scalar>)
        ensures
            r is None <==> order::numbers(scores@).len() == 0,
            r matches Some(v) ==> estimates(reals, *self, scores@, v),
    {
        let sorted = sorted_numbers(scores);
        if sorted.len() == 0 {
            return None;
        }
        Some(
            match self {
                Aggregator::Mean => reals.mean(&sorted),
                Aggregator::Median => median(scores, reals),
                Aggregator::TrimmedMean(fraction) => {
                    let share = fraction.clamp(
                        &Scalar::zero(),
                        &Scalar::from_bits(MOST_TRIMMED),
                    );
                    let cut = reals.tail(share, sorted.len());
                    proof {
                        assert(reals::is_tail(reals, share, sorted@.len() as usize, cut));
                    }
                    let rest = trimmed(&sorted, cut);
                    if rest.len() == 0 {
                        median(scores, reals)
                    } else {
                        reals.mean(&rest)
                    }
                },
            },
        )
    }

    /// A spread estimate for `scores`: the standard error of the mean, or one based on the
    /// median absolute deviation for the robust estimates. Zero for fewer than two finite scores.
    pub fn spread<R: Reals>(&self, scores: &Vec<Scalar>, reals: &R) -> (r: Scalar)
        ensures
            is_spread(reals, *self, scores@, r),
    {
        if finite_count(scores) < 2 {
            return Scalar::zero();
        }
        let sorted = sorted_numbers(scores);
        match self {
            Aggregator::Mean => reals.mean_error(&sorted),
            _ => {
                let center = median(scores, reals);
                let distances = reals.distances(&sorted, center);
                let deviation = median(&distances, reals);
                let r = reals.deviation_error(deviation, sorted.len());
                proof {
                    assert(reals::are_distances(reals, sorted@, center, distances@));
                    assert(is_robust_spread(reals, scores@, sorted@, r));
                }
                r
            },
        }
    }
}

/// A noisy objective, evaluated under a seed from which it derives its randomness.
pub trait Replicate {
    /// Whether a replicate under `seed` may make `reports` and come to `outcome`, where `stopped`
    /// says whether its sink asks to stop by then.
    spec fn allows(
        &self,
        seed: u64,
        reports: ReportLog,
        stopped: bool,
        outcome: Outcome,
    ) -> bool;

    /// Evaluate one replicate. What it may come to does not change by that; the sink is only
    /// reported to.
    fn evaluate<K: ReportSink>(&mut self, seed: u64, sink: &mut K) -> (r: Result<
        NamedMetrics,
        Error,
    >)
        requires
            old(sink).sound(),
        ensures
            final(sink).sound(),
            final(sink).anchor() == old(sink).anchor(),
            exists|reports: ReportLog| #[trigger]
                objective::log_grows(old(sink).log(), reports, final(sink).log()) && old(self).allows(
                    seed,
                    reports,
                    final(sink).stopping(),
                    objective::outcome_of(r),
                ),
            forall|s: u64, l: ReportLog, b: bool, x: Outcome| #[trigger]
                final(self).allows(s, l, b, x) == old(self).allows(s, l, b, x),
    ;
}

/// Selects the value of a metric.
pub open spec fn value_of(name: Seq<char>) -> spec_fn(Metrics) -> Option<Scalar> {
    |m: Metrics| trial::value_in(Some(m), name)
}

/// The values of a metric over replicates, in order.
pub open spec fn series(runs: Seq<Metrics>, name: Seq<char>) -> Seq<Scalar> {
    models::pick(runs, value_of(name))
}

/// The name of the spread of `objective`.
pub open spec fn spread_name(objective: Seq<char>) -> Seq<char> {
    objective + ".spread"@
}

/// Whether `out` sums up replicates: each metric with its estimate, and the spread of
/// `objective`.
pub open spec fn summarizes<R: Reals>(
    reals: &R,
    a: Aggregator,
    runs: Seq<Metrics>,
    objective: Seq<char>,
    out: Metrics,
) -> bool {
    let tag = spread_name(objective);
    &&& forall|name: Seq<char>|
        name != tag ==> (#[trigger] out.contains_key(name) <==> order::numbers(
            series(runs, name),
        ).len() > 0)
    &&& forall|name: Seq<char>|
        name != tag && #[trigger] out.contains_key(name) ==> estimates(
            reals,
            a,
            series(runs, name),
            out[name],
        )
    &&& out.contains_key(tag) <==> series(runs, objective).len() > 0 || order::numbers(
        series(runs, tag),
    ).len() > 0
    &&& series(runs, objective).len() > 0 ==> is_spread(
        reals,
        a,
        series(runs, objective),
        out[tag],
    )
    &&& series(runs, objective).len() == 0 && out.contains_key(tag) ==> estimates(
        reals,
        a,
        series(runs, tag),
        out[tag],
    )
}

/// A replicate that has been evaluated: what it came to, the reports that it made, and whether its
/// sink asked to stop by then.
pub struct Attempt {
    /// The metrics.
    pub metrics: Metrics,
    /// The reports that the replicate made itself.
    pub reports: ReportLog,
    /// Whether the sink asked to stop.
    pub stopped: bool,
}

/// The metrics of attempts.
pub open spec fn metrics_of(attempts: Seq<Attempt>) -> Seq<Metrics> {
    attempts.map_values(|a: Attempt| a.metrics)
}

/// Whether `attempts` are replicates under the seeds from `base_seed` on.
pub open spec fn are_attempts<E: Replicate>(
    eval: &E,
    base_seed: u64,
    attempts: Seq<Attempt>,
) -> bool {
    forall|i: int|
        0 <= i < attempts.len() ==> eval.allows(
            (base_seed + i) as u64,
            (#[trigger] attempts[i]).reports,
            attempts[i].stopped,
            Ok(attempts[i].metrics),
        )
}

/// The reports that attempts leave behind: those of each, and then its metrics at the step of its
/// number.
pub open spec fn curve(attempts: Seq<Attempt>) -> ReportLog
    decreases attempts.len(),
{
    if attempts.len() == 0 {
        Seq::empty()
    } else {
        let last = attempts.last();
        (curve(attempts.drop_last()) + last.reports).push((attempts.len() as u64, last.metrics))
    }
}

/// The number of replicates: at least one.
pub open spec fn replicates(n: usize) -> int {
    if n < 1 {
        1
    } else {
        n as int
    }
}

/// Whether a replicate behind `attempts` made the rest of `reports` and failed with `e`.
pub open spec fn fails_after<E: Replicate>(
    eval: &E,
    base_seed: u64,
    attempts: Seq<Attempt>,
    reports: ReportLog,
    stopped: bool,
    e: Error,
) -> bool {
    exists|rest: ReportLog| #[trigger]
        objective::log_grows(curve(attempts), rest, reports) && eval.allows(
            (base_seed + attempts.len()) as u64,
            rest,
            stopped,
            Err(e),
        )
}

/// Whether `n` replicates (at least one) leave `reports` behind and come to `outcome`, cut short
/// only where the sink asks to stop: a summary of all of them, or the error of the first that
/// failed.
pub open spec fn is_replicated<E: Replicate, R: Reals>(
    reals: &R,
    eval: &E,
    a: Aggregator,
    n: usize,
    base_seed: u64,
    objective: Seq<char>,
    reports: ReportLog,
    stopped: bool,
    outcome: Outcome,
) -> bool {
    exists|attempts: Seq<Attempt>| #[trigger]
        are_attempts(eval, base_seed, attempts) && match outcome {
            Ok(out) => 1 <= attempts.len() <= replicates(n) && (attempts.len() == replicates(n)
                || stopped) && reports == curve(attempts) && summarizes(
                reals,
                a,
                metrics_of(attempts),
                objective,
                out,
            ),
            Err(e) => attempts.len() < replicates(n) && fails_after(
                eval,
                base_seed,
                attempts,
                reports,
                stopped,
                e,
            ),
        }
}

/// The values of a metric over replicates, in order.
fn collect(runs: &Vec<NamedMetrics>, name: &str) -> (r: Vec<Scalar>)
    ensures
        r@ == series(models::of(runs@), name@),
{
    let mut out: Vec<Scalar> = Vec::new();
    let ghost all = models::of(runs@);
    let ghost f = value_of(name@);
    let mut i: usize = 0;
    proof {
        assert(all.take(0).len() == 0);
    }
    while i < runs.len()
        invariant
            i <= runs@.len(),
            all == models::of(runs@),
            f == value_of(name@),
            out@ == models::pick(all.take(i as int), f),
        decreases runs@.len() - i,
    {
        proof {
            models::pick_step(all, i as int, f);
        }
        if let Some(v) = runs[i].get(name) {
            out.push(v);
        }
        i += 1;
    }
    proof {
        models::pick_whole(all, f);
    }
    out
}

/// Whether one of the first `n` replicates has a metric of that name.
spec fn named(runs: Seq<Metrics>, n: int, name: Seq<char>) -> bool {
    exists|r: int| 0 <= r < n && (#[trigger] runs[r]).contains_key(name)
}

/// The names of all metrics of replicates.
fn all_names(runs: &Vec<NamedMetrics>) -> (r: NameMap<bool>)
    ensures
        forall|name: Seq<char>| #[trigger]
            r@.contains_key(name) <==> named(models::of(runs@), runs@.len() as int, name),
{
    let mut out: NameMap<bool> = NameMap::new();
    let ghost all = models::of(runs@);
    let mut i: usize = 0;
    while i < runs.len()
        invariant
            i <= runs@.len(),
            all == models::of(runs@),
            forall|name: Seq<char>| #[trigger]
                out@.contains_key(name) <==> named(all, i as int, name),
        decreases runs@.len() - i,
    {
        let pairs = runs[i].iter();
        let ghost ps = runs@[i as int].pairs();
        let ghost run = all[i as int];
        let mut j: usize = 0;
        while j < pairs.len()
            invariant
                j <= pairs@.len(),
                pairs@.len() == ps.len(),
                forall|k: int|
                    0 <= k < pairs@.len() ==> *(#[trigger] pairs@[k]).0 == ps[k].0,
                forall|name: Seq<char>| #[trigger]
                    out@.contains_key(name) <==> named(all, i as int, name) || exists|k: int|
                        0 <= k < j && (#[trigger] ps[k]).0@ == name,
            decreases pairs@.len() - j,
        {
            let ghost before = out@;
            out.insert(pairs[j].0.as_str(), true);
            proof {
                assert(ps[j as int].0 == *pairs@[j as int].0);
                assert forall|name: Seq<char>| #[trigger]
                    out@.contains_key(name) <==> named(all, i as int, name) || exists|k: int|
                        0 <= k < j + 1 && (#[trigger] ps[k]).0@ == name by {
                    if name == ps[j as int].0@ {
                        assert(out@.contains_key(name));
                    } else if before.contains_key(name) {
                        assert(out@.contains_key(name));
                        if !named(all, i as int, name) {
                            let k = choose|k: int| 0 <= k < j && (#[trigger] ps[k]).0@ == name;
                            assert(ps[k].0@ == name);
                        }
                    }
                }
            }
            j += 1;
        }
        proof {
            assert(run == names::entries_map(ps));
            assert forall|name: Seq<char>| #[trigger]
                out@.contains_key(name) <==> named(all, i + 1, name) by {
                if run.contains_key(name) {
                    let k = choose|k: int| 0 <= k < ps.len() && #[trigger] ps[k].0@ == name;
                    assert(ps[k].0@ == name);
                    assert(all[i as int].contains_key(name));
                }
                if named(all, i as int, name) {
                    let r = choose|r: int| 0 <= r < i && (#[trigger] all[r]).contains_key(name);
                    assert(all[r].contains_key(name));
                }
                if out@.contains_key(name) && !named(all, i as int, name) {
                    let k = choose|k: int| 0 <= k < ps.len() && (#[trigger] ps[k]).0@ == name;
                    assert(ps[k].0@ == name);
                    assert(run.contains_key(name));
                    assert(all[i as int].contains_key(name));
                }
            }
        }
        i += 1;
    }
    out
}

/// A metric has values just if some replicate names it.
proof fn series_of_named(runs: Seq<Metrics>, name: Seq<char>)
    ensures
        series(runs, name).len() > 0 <==> named(runs, runs.len() as int, name),
{
    if series(runs, name).len() > 0 {
        let r = models::pick_origin(runs, value_of(name), 0);
        assert(runs[r].contains_key(name));
    }
    if named(runs, runs.len() as int, name) {
        let r = choose|r: int| 0 <= r < runs.len() && (#[trigger] runs[r]).contains_key(name);
        let k = models::pick_holds(runs, value_of(name), r);
    }
}

/// Reduces replicates: the estimate of each metric, and the spread of `objective`.
pub fn summarize<R: Reals>(
    aggregator: Aggregator,
    runs: &Vec<NamedMetrics>,
    objective: &str,
    reals: &R,
) -> (out: NamedMetrics)
    ensures
        summarizes(reals, aggregator, models::of(runs@), objective@, out@),
{
    let ghost all = models::of(runs@);
    let ghost tag = spread_name(objective@);
    let names = all_names(runs);
    let pairs = names.iter();
    let ghost ps = names.pairs();
    let mut out = NamedMetrics::new();
    let mut i: usize = 0;
    while i < pairs.len()
        invariant
            i <= pairs@.len(),
            pairs@.len() == ps.len(),
            all == models::of(runs@),
            forall|k: int| 0 <= k < pairs@.len() ==> *(#[trigger] pairs@[k]).0 == ps[k].0,
            forall|name: Seq<char>| #[trigger]
                out@.contains_key(name) <==> order::numbers(series(all, name)).len() > 0
                    && exists|k: int| 0 <= k < i && (#[trigger] ps[k]).0@ == name,
            forall|name: Seq<char>| #[trigger]
                out@.contains_key(name) ==> estimates(
                    reals,
                    aggregator,
                    series(all, name),
                    out@[name],
                ),
        decreases pairs@.len() - i,
    {
        let name = pairs[i].0.as_str();
        proof {
            assert(ps[i as int].0 == *pairs@[i as int].0);
        }
        let ghost before = out@;
        let scores = collect(runs, name);
        if let Some(v) = aggregator.aggregate(&scores, reals) {
            out.insert(name, v);
        }
        proof {
            assert forall|x: Seq<char>| #[trigger]
                out@.contains_key(x) <==> order::numbers(series(all, x)).len() > 0 && exists|k: int|
                    0 <= k < i + 1 && (#[trigger] ps[k]).0@ == x by {
                if x == name@ {
                    assert(ps[i as int].0@ == x);
                } else {
                    assert(out@.contains_key(x) == before.contains_key(x));
                    if before.contains_key(x) {
                        let k = choose|k: int| 0 <= k < i && (#[trigger] ps[k]).0@ == x;
                        assert(ps[k].0@ == x);
                    }
                }
            }
        }
        i += 1;
    }
    proof {
        assert(names@ == names::entries_map(ps));
        assert forall|name: Seq<char>| #[trigger] out@.contains_key(name) <==> order::numbers(
            series(all, name),
        ).len() > 0 by {
            series_of_named(all, name);
            if order::numbers(series(all, name)).len() > 0 {
                models::pick_is_no_longer(series(all, name), order::if_number());
                assert(names@.contains_key(name));
                let k = choose|k: int| 0 <= k < ps.len() && #[trigger] ps[k].0@ == name;
                assert(ps[k].0@ == name);
            }
        }
    }
    let scores = collect(runs, objective);
    if scores.len() > 0 {
        let spread = aggregator.spread(&scores, reals);
        let tag = join(objective, ".spread");
        out.insert(tag.as_str(), spread);
    }
    out
}

/// Evaluate a noisy objective `n_replicates` times (at least once) and return the robust
/// estimate of each metric.
///
/// Replicate `i` receives seed `base_seed + i`. The metrics of each replicate are reported as they
/// are, at the step of its number from one on, so a pruner sees a curve and can stop a clearly bad
/// configuration early.
pub fn replicate<K: ReportSink, E: Replicate, R: Reals>(
    aggregator: Aggregator,
    n_replicates: usize,
    base_seed: u64,
    objective: &str,
    sink: &mut K,
    eval: &mut E,
    reals: &R,
) -> (r: Result<NamedMetrics, Error>)
    requires
        base_seed + n_replicates <= u64::MAX + 1,
        old(sink).sound(),
    ensures
        final(sink).sound(),
        final(sink).anchor() == old(sink).anchor(),
        exists|reports: ReportLog| #[trigger]
            objective::log_grows(old(sink).log(), reports, final(sink).log()) && is_replicated(
                reals,
                old(eval),
                aggregator,
                n_replicates,
                base_seed,
                objective@,
                reports,
                final(sink).stopping(),
                objective::outcome_of(r),
            ),
        forall|s: u64, l: ReportLog, b: bool, x: Outcome| #[trigger]
            final(eval).allows(s, l, b, x) == old(eval).allows(s, l, b, x),
{
    let n: usize = if n_replicates < 1 {
        1
    } else {
        n_replicates
    };
    let mut runs: Vec<NamedMetrics> = Vec::new();
    let mut i: usize = 0;
    let mut going = true;
    let ghost begun = sink.log();
    let ghost mut attempts: Seq<Attempt> = Seq::empty();
    proof {
        assert(begun + curve(attempts) =~= begun);
        assert(models::of(runs@) =~= metrics_of(attempts));
    }
    while going && i < n
        invariant
            i <= n,
            n == (if n_replicates < 1 {
                1
            } else {
                n_replicates
            }),
            base_seed + n_replicates <= u64::MAX + 1,
            runs@.len() == i,
            attempts.len() == i,
            models::of(runs@) == metrics_of(attempts),
            begun == old(sink).log(),
            sink.log() == begun + curve(attempts),
            !going ==> i >= 1 && sink.stopping(),
            sink.sound(),
            sink.anchor() == old(sink).anchor(),
            are_attempts(old(eval), base_seed, attempts),
            forall|s: u64, l: ReportLog, b: bool, x: Outcome| #[trigger]
                eval.allows(s, l, b, x) == old(eval).allows(s, l, b, x),
        decreases n - i,
    {
        let ghost log = sink.log();
        let ghost earlier = runs@;
        let evaluated = eval.evaluate(base_seed + i as u64, sink);
        let ghost made = choose|made: ReportLog| #[trigger]
            objective::log_grows(log, made, sink.log()) && old(eval).allows(
                (base_seed + i) as u64,
                made,
                sink.stopping(),
                objective::outcome_of(evaluated),
            );
        let ghost stopped = sink.stopping();
        let metrics = match evaluated {
            Ok(m) => m,
            Err(e) => {
                proof {
                    let reports = curve(attempts) + made;
                    assert(objective::log_grows(curve(attempts), made, reports));
                    assert(sink.log() =~= begun + reports);
                    assert(fails_after(
                        old(eval),
                        base_seed,
                        attempts,
                        reports,
                        sink.stopping(),
                        e,
                    ));
                    assert(objective::log_grows(old(sink).log(), reports, sink.log()));
                }
                return Err(e);
            },
        };
        let ghost fresh = Attempt { metrics: metrics@, reports: made, stopped };
        let ghost longer = attempts.push(fresh);
        let copy = metrics.clone();
        runs.push(metrics);
        let _ = sink.report(i as u64 + 1, copy);
        proof {
            assert(longer.drop_last() =~= attempts);
            assert(curve(longer) == (curve(attempts) + made).push(
                (longer.len() as u64, fresh.metrics),
            ));
            assert(sink.log() =~= begun + curve(longer));
            assert forall|k: int| 0 <= k < longer.len() implies old(eval).allows(
                (base_seed + k) as u64,
                (#[trigger] longer[k]).reports,
                longer[k].stopped,
                Ok(longer[k].metrics),
            ) by {
                if k < attempts.len() {
                    assert(longer[k] == attempts[k]);
                }
            }
            assert(models::of(runs@) =~= metrics_of(longer)) by {
                assert forall|k: int| 0 <= k < longer.len() implies models::of(runs@)[k]
                    == metrics_of(longer)[k] by {
                    if k < attempts.len() {
                        assert(models::of(earlier)[k] == metrics_of(attempts)[k]);
                        assert(longer[k] == attempts[k]);
                    }
                }
            }
            attempts = longer;
        }
        i += 1;
        if sink.should_stop() {
            going = false;
        }
    }
    let out = summarize(aggregator, &runs, objective, reals);
    proof {
        assert(are_attempts(old(eval), base_seed, attempts));
        assert(objective::log_grows(old(sink).log(), curve(attempts), sink.log()));
    }
    Ok(out)
}

/// Trimming drops as many numbers at each end: what it keeps has the ranks in between.
pub proof fn law_trimming_drops_as_many_at_each_end(
    scores: Seq<Scalar>,
    sorted: Seq<Scalar>,
    cut: int,
    i: int,
)
    requires
        order::is_ascending(order::numbers(scores), sorted),
        0 <= cut,
        0 <= i < kept(sorted, cut).len(),
    ensures
        kept(sorted, cut).len() == scores.filter(order::known()).len() - 2 * cut,
        scores.contains(kept(sorted, cut)[i]),
        scores.filter(order::known_below(kept(sorted, cut)[i])).len() <= cut + i,
        scores.filter(order::known_above(kept(sorted, cut)[i])).len() < kept(sorted, cut).len()
            + cut - i,
{
    order::law_places_are_ranks(scores, sorted, cut + i);
    assert(kept(sorted, cut)[i] == sorted[cut + i]);
}

/// A mean is that of all numbers among the scores; a trimmed mean is that of the numbers in the
/// middle, with the asked share, of at most forty-nine hundredths, left out at each end.
pub proof fn law_means_are_over_the_numbers<R: Reals>(
    reals: &R,
    a: Aggregator,
    scores: Seq<Scalar>,
    v: Scalar,
)
    requires
        estimates(reals, a, scores, v),
        scores.len() <= usize::MAX,
    ensures
        a is Mean ==> exists|list: Seq<Scalar>|
            #[trigger] reals::is_mean(reals, list, v) && order::is_ascending(
                order::numbers(scores),
                list,
            ),
        a matches Aggregator::TrimmedMean(fraction) ==> exists|
            list: Seq<Scalar>,
            cut: usize,
            share: Scalar,
        |
            order::is_ascending(order::numbers(scores), list) && #[trigger] reals::is_tail(
                reals,
                share,
                list.len() as usize,
                cut,
            ) && (!fraction.nan() ==> (0 <= fraction.key() <= 0x3fdf_5c28_f5c2_8f5c ==> share
                == fraction) && (fraction.key() > 0x3fdf_5c28_f5c2_8f5c ==> share.key()
                == 0x3fdf_5c28_f5c2_8f5c) && (fraction.key() < 0 ==> share.key() == 0)) && (2 * cut
                < list.len() ==> reals::is_mean(
                reals,
                list.subrange(cut as int, list.len() - cut),
                v,
            )),
{
    if let Aggregator::TrimmedMean(fraction) = a {
        let share = fraction.clamped(Scalar { bits: 0 }, Scalar { bits: MOST_TRIMMED });
        let (list, cut) = choose|list: Seq<Scalar>, cut: usize| #[trigger]
            order::is_ascending(order::numbers(scores), list) && #[trigger] reals::is_tail(
                reals,
                share,
                list.len() as usize,
                cut,
            ) && is_trimmed_mean(reals, scores, list, cut, v);
        if 2 * cut < list.len() {
            assert(kept(list, cut as int).len() > 0);
        }
        assert(reals::is_tail(reals, share, list.len() as usize, cut));
    }
}

/// Tells finite scores.
pub open spec fn finite_score() -> spec_fn(Scalar) -> bool {
    |s: Scalar| s.finite()
}

/// The spread around a mean is its standard error; around a robust estimate it goes by the median
/// of the distances from the median. Fewer than two finite scores have none.
pub proof fn law_spreads_go_by_their_estimate<R: Reals>(
    reals: &R,
    a: Aggregator,
    scores: Seq<Scalar>,
    v: Scalar,
)
    requires
        is_spread(reals, a, scores, v),
        scores.len() <= usize::MAX,
    ensures
        scores.filter(finite_score()).len() < 2 ==> v.pattern() == 0,
        scores.filter(finite_score()).len() >= 2 && a is Mean ==> exists|
            list: Seq<Scalar>,
        |
            #[trigger] reals::is_mean_error(reals, list, v) && order::is_ascending(
                order::numbers(scores),
                list,
            ),
        scores.filter(finite_score()).len() >= 2 && !(a is Mean) ==> exists|
            center: Scalar,
            distances: Seq<Scalar>,
            deviation: Scalar,
            list: Seq<Scalar>,
        |
            is_median(reals, scores, center) && order::is_ascending(
                order::numbers(scores),
                list,
            ) && #[trigger] reals::are_distances(reals, list, center, distances) && is_median(
                reals,
                distances,
                deviation,
            ) && #[trigger] reals::is_deviation_error(reals, deviation, list.len() as usize, v),
{
    models::picked_as_many(scores, if_finite(), finite_score());
    if models::pick(scores, if_finite()).len() >= 2 {
        let list = choose|list: Seq<Scalar>| #[trigger]
            order::is_ascending(order::numbers(scores), list) && if a == Aggregator::Mean {
                reals::is_mean_error(reals, list, v)
            } else {
                is_robust_spread(reals, scores, list, v)
            };
        if a is Mean {
            assert(reals::is_mean_error(reals, list, v));
        } else {
            let (center, distances, deviation) = choose|
                center: Scalar,
                distances: Seq<Scalar>,
                deviation: Scalar,
            | #[trigger]
                is_median(reals, scores, center) && #[trigger] reals::are_distances(
                    reals,
                    list,
                    center,
                    distances,
                ) && #[trigger] is_median(reals, distances, deviation) && reals::is_deviation_error(
                    reals,
                    deviation,
                    list.len() as usize,
                    v,
                );
            assert(reals::are_distances(reals, list, center, distances)
                && reals::is_deviation_error(reals, deviation, list.len() as usize, v));
        }
    }
}

/// The values of a metric over attempts that have it, in order.
pub open spec fn values_over(attempts: Seq<Attempt>, name: Seq<char>) -> Seq<Scalar> {
    attempts.filter(|a: Attempt| a.metrics.contains_key(name)).map_values(
        |a: Attempt| a.metrics[name],
    )
}

proof fn series_is_over_attempts(attempts: Seq<Attempt>, name: Seq<char>)
    ensures
        series(metrics_of(attempts), name) == values_over(attempts, name),
    decreases attempts.len(),
{
    reveal(Seq::filter);
    if attempts.len() > 0 {
        series_is_over_attempts(attempts.drop_last(), name);
        assert(metrics_of(attempts).drop_last() =~= metrics_of(attempts.drop_last()));
        assert(series(metrics_of(attempts), name) =~= values_over(attempts, name));
    } else {
        assert(series(metrics_of(attempts), name) =~= values_over(attempts, name));
    }
}

/// Replicates run under seeds that count up, at least one and as many as were asked for unless
/// they are told to stop, and what comes of them estimates each metric from all of them.
pub proof fn law_replicates_are_summed_up_together<E: Replicate, R: Reals>(
    reals: &R,
    eval: &E,
    a: Aggregator,
    n: usize,
    base_seed: u64,
    objective: Seq<char>,
    reports: ReportLog,
    stopped: bool,
    out: Metrics,
    name: Seq<char>,
)
    requires
        is_replicated(reals, eval, a, n, base_seed, objective, reports, stopped, Ok(out)),
        base_seed + n <= u64::MAX,
        name != objective + ".spread"@,
        out.contains_key(name),
    ensures
        exists|attempts: Seq<Attempt>|
            1 <= attempts.len() && (n >= 1 ==> attempts.len() <= n) && (!stopped && n >= 1
                ==> attempts.len() == n) && (forall|i: int|
                0 <= i < attempts.len() ==> eval.allows(
                    (base_seed + i) as u64,
                    (#[trigger] attempts[i]).reports,
                    attempts[i].stopped,
                    Ok(attempts[i].metrics),
                )) && estimates(
                reals,
                a,
                #[trigger] values_over(attempts, name),
                out[name],
            ),
{
    let attempts = choose|attempts: Seq<Attempt>| #[trigger]
        are_attempts(eval, base_seed, attempts) && 1 <= attempts.len() <= replicates(n) && (
        attempts.len() == replicates(n) || stopped) && reports == curve(attempts) && summarizes(
            reals,
            a,
            metrics_of(attempts),
            objective,
            out,
        );
    series_is_over_attempts(attempts, name);
    assert(values_over(attempts, name) == series(metrics_of(attempts), name));
}

} // verus!
