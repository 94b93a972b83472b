//! Executable tabular pipeline search: a preprocessing transform and a classifier, searched
//! jointly.
//!
//! The preprocessing stage chooses standardize, normalize or none, and the model stage chooses a
//! nearest-centroid or k-nearest-neighbours classifier, all expressed through the core
//! [`PipelineSpace`].

use vstd::prelude::*;
use crate::distribution::{Distribution, DistModel};
use crate::error::Error;
use crate::memory::InMemoryStorage;
use crate::metrics::{Direction, NamedMetrics};
#[allow(unused_imports)]
use crate::objective::{Objective, Outcome, ReportLog, ReportSink};
use crate::order::ranking;
#[allow(unused_imports)]
use crate::param::Assignment;
use crate::param::ParamSet;
use crate::pareto::clone_scalars;
use crate::pipeline::{Component, ComponentModel, KnobModel, PipelineSpace, Stage, StageModel};
use crate::pruner::NoPruner;
use crate::reals::Reals;
use crate::rng::TrialRng;
use crate::scalar::Scalar;
use crate::study::Study;
use crate::tasks::vectors::{center_of, first_least, is_rectangular, Vectors};
use crate::text::same_text;
use crate::tpe::TpeSampler;
#[allow(unused_imports)]
use crate::run::Bench;
#[allow(unused_imports)]
use crate::trial::{Metrics, TrialModel};
#[allow(unused_imports)]
use crate::models;
#[allow(unused_imports)]
use crate::order;
#[allow(unused_imports)]
use crate::objective;
#[allow(unused_imports)]
use crate::param;
#[allow(unused_imports)]
use crate::pipeline;
#[allow(unused_imports)]
use crate::rng;
#[allow(unused_imports)]
use crate::run;
#[allow(unused_imports)]
use crate::space;
#[allow(unused_imports)]
use crate::tasks::vectors;
#[allow(unused_imports)]
use crate::tpe;

verus! {

/// How many of `n` rows are held out, given the number asked for: at least one, and not all
/// where there are two or more.
pub open spec fn held_out(asked: usize, n: int) -> int {
    let most = if n > 2 {
        n - 1
    } else {
        1
    };
    let m = if asked < 1 {
        1
    } else if asked > most {
        most
    } else {
        asked as int
    };
    if m < n {
        m
    } else {
        n
    }
}

/// The numbers below `n` in order.
fn all_below(n: usize) -> (r: Vec<usize>)
    ensures
        r@ == Seq::new(n as nat, |i: int| i as usize),
{
    let mut out: Vec<usize> = Vec::new();
    let mut i: usize = 0;
    while i < n
        invariant
            i <= n,
            out@.len() == i,
            forall|k: int| 0 <= k < i ==> #[trigger] out@[k] == k as usize,
        decreases n - i,
    {
        out.push(i);
        i += 1;
    }
    proof {
        assert(out@ =~= Seq::new(n as nat, |i: int| i as usize));
    }
    out
}

/// Whether rows are split as `n` of them shuffled by `seed` and cut before the held-out ones.
pub open spec fn is_split(
    n: usize,
    asked: usize,
    seed: u64,
    train: Seq<usize>,
    val: Seq<usize>,
) -> bool {
    &&& val.len() == held_out(asked, n as int)
    &&& train + val == rng::chacha_shuffle(seed, 0, Seq::new(n as nat, |i: int| i as usize)).0
}

/// Splits `n` rows at random into those to train on and those to validate on: the shuffled rows,
/// cut before the held-out ones.
pub fn split(n: usize, asked: usize, seed: u64) -> (r: (Vec<usize>, Vec<usize>))
    ensures
        is_split(n, asked, seed, r.0@, r.1@),
        (r.0@ + r.1@).to_multiset() == Seq::new(n as nat, |i: int| i as usize).to_multiset(),
{
    let mut rng = TrialRng::new(seed);
    let order = rng.shuffle(all_below(n));
    proof {
        let all = Seq::new(n as nat, |i: int| i as usize);
        all.to_multiset_ensures();
        order@.to_multiset_ensures();
        assert(order@.len() == n);
    }
    let most: usize = if n > 2 {
        n - 1
    } else {
        1
    };
    let mut out: usize = if asked < 1 {
        1
    } else if asked > most {
        most
    } else {
        asked
    };
    if out > n {
        out = n;
    }
    let cut = n - out;
    let mut train: Vec<usize> = Vec::new();
    let mut val: Vec<usize> = Vec::new();
    let mut i: usize = 0;
    while i < n
        invariant
            i <= n,
            n == order@.len(),
            cut <= n,
            train@ == order@.take(
                if i < cut {
                    i as int
                } else {
                    cut as int
                },
            ),
            val@ == (if i < cut {
                Seq::empty()
            } else {
                order@.subrange(cut as int, i as int)
            }),
        decreases n - i,
    {
        if i < cut {
            train.push(order[i]);
            proof {
                assert(order@.take(i + 1) =~= order@.take(i as int).push(order@[i as int]));
                assert(order@.subrange(cut as int, cut as int) =~= Seq::<usize>::empty());
            }
        } else {
            val.push(order[i]);
            proof {
                assert(order@.subrange(cut as int, i + 1) =~= order@.subrange(
                    cut as int,
                    i as int,
                ).push(order@[i as int]));
            }
        }
        i += 1;
    }
    proof {
        assert(train@ + val@ =~= order@);
    }
    (train, val)
}

/// Every row is either trained on or validated on, and none is both.
pub proof fn law_split_is_a_partition(train: Seq<usize>, val: Seq<usize>, n: usize, row: usize)
    requires
        (train + val).to_multiset() == Seq::new(n as nat, |i: int| i as usize).to_multiset(),
    ensures
        train.contains(row) || val.contains(row) <==> row < n,
        !(train.contains(row) && val.contains(row)),
{
    let all = Seq::new(n as nat, |i: int| i as usize);
    let both = train + val;
    all.to_multiset_ensures();
    both.to_multiset_ensures();
    assert(both.to_multiset().count(row) == all.to_multiset().count(row));
    assert(both.contains(row) <==> all.contains(row));
    assert(all.contains(row) <==> row < n) by {
        if row < n {
            assert(all[row as int] == row);
        }
    }
    if train.contains(row) {
        assert(both[train.index_of(row)] == row);
    }
    if val.contains(row) {
        assert(both[train.len() + val.index_of(row)] == row);
    }
    if both.contains(row) {
        let i = both.index_of(row);
        if i < train.len() {
            assert(train[i] == row);
        } else {
            assert(val[i - train.len()] == row);
        }
    }
    if train.contains(row) && val.contains(row) {
        assert(all.no_duplicates());
        all.lemma_multiset_has_no_duplicates();
        both.lemma_multiset_has_no_duplicates_conv();
        let (i, j) = (train.index_of(row), train.len() + val.index_of(row));
        assert(both[i] == both[j]);
    }
}

/// A fitted preprocessing transform: what each column is shifted and divided by.
#[derive(Debug)]
pub enum Preprocess {
    /// Leaves rows as they are.
    Unchanged,
    /// Shifts and scales each column.
    Scaled(Vec<(Scalar, Scalar)>),
}

/// The values of a column in the rows at the given positions.
fn column(rows: &Vec<Vec<Scalar>>, at: &Vec<usize>, j: usize) -> (c: Vec<Scalar>)
    requires
        forall|k: int| 0 <= k < at@.len() ==> (#[trigger] at@[k]) < rows@.len(),
        forall|i: int| 0 <= i < rows@.len() ==> j < (#[trigger] rows@[i])@.len(),
    ensures
        c@ == at@.map_values(|i: usize| rows@[i as int]@[j as int]),
{
    let mut c: Vec<Scalar> = Vec::new();
    let mut k: usize = 0;
    while k < at.len()
        invariant
            k <= at@.len(),
            forall|k: int| 0 <= k < at@.len() ==> (#[trigger] at@[k]) < rows@.len(),
            forall|i: int| 0 <= i < rows@.len() ==> j < (#[trigger] rows@[i])@.len(),
            c@.len() == k,
            forall|x: int| 0 <= x < k ==> #[trigger] c@[x] == rows@[at@[x] as int]@[j as int],
        decreases at@.len() - k,
    {
        let row = &rows[at[k]];
        proof {
            assert(rows@[at@[k as int] as int]@.len() > j);
        }
        c.push(row[j]);
        k += 1;
    }
    proof {
        assert(c@ =~= at@.map_values(|i: usize| rows@[i as int]@[j as int]));
    }
    c
}

/// Whether `low` and `high` are the least and the greatest number of a list; infinities when
/// there is none.
pub open spec fn is_extent(values: Seq<Scalar>, low: Scalar, high: Scalar) -> bool {
    &&& !low.nan() && !high.nan()
    &&& forall|i: int|
        0 <= i < values.len() && !(#[trigger] values[i]).nan() ==> low.key() <= values[i].key()
            <= high.key()
    &&& low.key() == crate::scalar::INFINITE || values.contains(low)
    &&& high.key() == -crate::scalar::INFINITE || values.contains(high)
}

/// The least and the greatest number of a list; infinities when there is none.
pub fn extent(values: &Vec<Scalar>) -> (r: (Scalar, Scalar))
    ensures
        is_extent(values@, r.0, r.1),
{
    let mut low = Scalar::infinity();
    let mut high = Scalar::neg_infinity();
    let mut i: usize = 0;
    while i < values.len()
        invariant
            i <= values@.len(),
            !low.nan() && !high.nan(),
            forall|k: int|
                0 <= k < i && !(#[trigger] values@[k]).nan() ==> low.key() <= values@[k].key()
                    <= high.key(),
            low.key() == crate::scalar::INFINITE || values@.contains(low),
            high.key() == -crate::scalar::INFINITE || values@.contains(high),
        decreases values@.len() - i,
    {
        let x = values[i];
        proof {
            assert(values@.contains(values@[i as int]));
        }
        if x.lt(&low) {
            low = x;
        }
        if high.lt(&x) {
            high = x;
        }
        i += 1;
    }
    (low, high)
}

/// Whether `s` shifts and scales a column: by its mean and deviation to standardize it, and else
/// by its least number and its span.
pub open spec fn is_column_scale<V: Vectors>(
    vectors: &V,
    standard: bool,
    values: Seq<Scalar>,
    s: (Scalar, Scalar),
) -> bool {
    if standard {
        vectors::is_mean(vectors, values, s.0) && vectors::is_deviation(
            vectors,
            values,
            s.0,
            s.1,
        )
    } else {
        exists|high: Scalar| #[trigger]
            is_extent(values, s.0, high) && vectors::is_span(vectors, s.0, high, s.1)
    }
}

impl Preprocess {
    /// Whether the transform is that of a kind for the rows at the given positions.
    pub open spec fn is_fitted<V: Vectors>(
        self,
        vectors: &V,
        kind: Seq<char>,
        rows: Seq<Vec<Scalar>>,
        at: Seq<usize>,
    ) -> bool {
        if kind == "standardize"@ || kind == "normalize"@ {
            self matches Preprocess::Scaled(s) && s@.len() == rows[0]@.len() && forall|j: int|
                0 <= j < s@.len() ==> is_column_scale(
                    vectors,
                    kind == "standardize"@,
                    vectors::column(rows, at, j),
                    #[trigger] s@[j],
                )
        } else {
            self is Unchanged
        }
    }

    /// Whether `r` is a row transformed, number by number.
    pub open spec fn is_applied<V: Vectors>(
        self,
        vectors: &V,
        row: Seq<Scalar>,
        r: Seq<Scalar>,
    ) -> bool {
        match self {
            Preprocess::Unchanged => r == row,
            Preprocess::Scaled(s) => {
                &&& r.len() == if row.len() < s@.len() {
                    row.len()
                } else {
                    s@.len()
                }
                &&& forall|j: int|
                    0 <= j < r.len() ==> vectors::is_scaled(
                        vectors,
                        row[j],
                        s@[j].0,
                        s@[j].1,
                        #[trigger] r[j],
                    )
            },
        }
    }

    /// Whether the transform fits rows of `d` numbers.
    pub open spec fn fits(self, d: int) -> bool {
        match self {
            Preprocess::Unchanged => true,
            Preprocess::Scaled(s) => s@.len() == d,
        }
    }

    /// Fit the preprocessing of that name on the rows at the given positions. An unknown name
    /// leaves rows as they are.
    pub fn fit<V: Vectors>(
        kind: &str,
        rows: &Vec<Vec<Scalar>>,
        at: &Vec<usize>,
        vectors: &V,
    ) -> (p: Preprocess)
        requires
            rows@.len() > 0,
            vectors::rectangular(rows@, rows@[0]@.len() as int),
            forall|k: int| 0 <= k < at@.len() ==> (#[trigger] at@[k]) < rows@.len(),
        ensures
            p.fits(rows@[0]@.len() as int),
            p.is_fitted(vectors, kind@, rows@, at@),
    {
        let standard = same_text(kind, "standardize");
        let normal = same_text(kind, "normalize");
        if !standard && !normal {
            return Preprocess::Unchanged;
        }
        let d = rows[0].len();
        let mut columns: Vec<(Scalar, Scalar)> = Vec::new();
        let mut j: usize = 0;
        while j < d
            invariant
                j <= d,
                rows@.len() > 0,
                d == rows@[0]@.len(),
                vectors::rectangular(rows@, d as int),
                forall|k: int| 0 <= k < at@.len() ==> (#[trigger] at@[k]) < rows@.len(),
                columns@.len() == j,
                forall|x: int|
                    0 <= x < j ==> is_column_scale(
                        vectors,
                        standard,
                        vectors::column(rows@, at@, x),
                        #[trigger] columns@[x],
                    ),
            decreases d - j,
        {
            let values = column(rows, at, j);
            let ghost own = vectors::column(rows@, at@, j as int);
            proof {
                assert(values@ =~= own);
            }
            if standard {
                let mean = vectors.mean(&values);
                let scale = vectors.deviation(&values, mean);
                proof {
                    assert(vectors::is_mean(vectors, own, mean));
                    assert(vectors::is_deviation(vectors, own, mean, scale));
                }
                columns.push((mean, scale));
            } else {
                let (low, high) = extent(&values);
                let scale = vectors.span(low, high);
                proof {
                    let s = (low, scale);
                    assert(is_extent(own, s.0, high));
                    assert(vectors::is_span(vectors, s.0, high, s.1));
                    assert(is_column_scale(vectors, standard, own, s));
                }
                columns.push((low, scale));
            }
            j += 1;
        }
        Preprocess::Scaled(columns)
    }

    /// Apply the transform to a row.
    pub fn apply<V: Vectors>(&self, row: &Vec<Scalar>, vectors: &V) -> (r: Vec<Scalar>)
        ensures
            self.is_applied(vectors, row@, r@),
    {
        match self {
            Preprocess::Unchanged => clone_scalars(row),
            Preprocess::Scaled(columns) => {
                let mut out: Vec<Scalar> = Vec::new();
                let mut j: usize = 0;
                while j < row.len() && j < columns.len()
                    invariant
                        j <= row@.len(),
                        j <= columns@.len(),
                        out@.len() == j,
                        forall|x: int|
                            0 <= x < j ==> vectors::is_scaled(
                                vectors,
                                row@[x],
                                columns@[x].0,
                                columns@[x].1,
                                #[trigger] out@[x],
                            ),
                    decreases row@.len() - j,
                {
                    let (shift, scale) = columns[j];
                    out.push(vectors.scaled(row[j], shift, scale));
                    j += 1;
                }
                out
            },
        }
    }
}

/// How often a label occurs.
pub open spec fn votes_for(labels: Seq<i64>, label: i64) -> nat
    decreases labels.len(),
{
    if labels.len() == 0 {
        0
    } else {
        votes_for(labels.drop_last(), label) + if labels.last() == label {
            1nat
        } else {
            0nat
        }
    }
}

/// Whether `label` wins a vote: it occurs most often, and is the greatest of those that do.
pub open spec fn wins(labels: Seq<i64>, label: i64) -> bool {
    &&& labels.contains(label)
    &&& forall|x: i64|
        labels.contains(x) ==> #[trigger] votes_for(labels, x) <= votes_for(labels, label)
    &&& forall|x: i64|
        labels.contains(x) && #[trigger] votes_for(labels, x) == votes_for(labels, label) ==> x
            <= label
}

/// A vote has one winner.
pub proof fn law_vote_has_one_winner(labels: Seq<i64>, a: i64, b: i64)
    requires
        wins(labels, a),
        wins(labels, b),
    ensures
        a == b,
{
    assert(votes_for(labels, a) == votes_for(labels, b));
}

fn count_votes(labels: &Vec<i64>, label: i64) -> (n: usize)
    ensures
        n == votes_for(labels@, label),
{
    let mut n: usize = 0;
    let mut i: usize = 0;
    proof {
        assert(labels@.take(0).len() == 0);
    }
    while i < labels.len()
        invariant
            i <= labels@.len(),
            n <= i,
            n == votes_for(labels@.take(i as int), label),
        decreases labels@.len() - i,
    {
        proof {
            assert(labels@.take(i + 1).drop_last() =~= labels@.take(i as int));
            assert(labels@.take(i + 1).last() == labels@[i as int]);
        }
        if labels[i] == label {
            n += 1;
        }
        i += 1;
    }
    proof {
        assert(labels@.take(i as int) =~= labels@);
    }
    n
}

/// The label that occurs most often, the greatest of those that do.
pub fn vote(labels: &Vec<i64>) -> (r: Option<i64>)
    ensures
        match r {
            Some(x) => wins(labels@, x),
            None => labels@.len() == 0,
        },
{
    if labels.len() == 0 {
        return None;
    }
    let mut best = labels[0];
    let mut most = count_votes(labels, best);
    let mut i: usize = 1;
    proof {
        assert(labels@.take(1)[0] == best);
    }
    while i < labels.len()
        invariant
            1 <= i <= labels@.len(),
            most == votes_for(labels@, best),
            labels@.take(i as int).contains(best),
            forall|k: int|
                0 <= k < i ==> votes_for(labels@, #[trigger] labels@[k]) <= most && (votes_for(
                    labels@,
                    labels@[k],
                ) == most ==> labels@[k] <= best),
        decreases labels@.len() - i,
    {
        let x = labels[i];
        let n = count_votes(labels, x);
        let ghost before = best;
        if n > most || (n == most && x > best) {
            best = x;
            most = n;
        }
        proof {
            let more = labels@.take(i + 1);
            if best == before {
                let k = labels@.take(i as int).index_of(best);
                assert(more[k] == best);
            } else {
                assert(more[i as int] == best);
            }
        }
        i += 1;
    }
    proof {
        assert(labels@.take(i as int) =~= labels@);
        assert forall|x: i64| labels@.contains(x) implies #[trigger] votes_for(labels@, x)
            <= votes_for(labels@, best) by {
            let k = labels@.index_of(x);
            assert(labels@[k] == x);
        }
        assert forall|x: i64|
            labels@.contains(x) && #[trigger] votes_for(labels@, x) == votes_for(
                labels@,
                best,
            ) implies x <= best by {
            let k = labels@.index_of(x);
            assert(labels@[k] == x);
        }
    }
    Some(best)
}

/// Whether `near` holds the labels of the `k` nearest rows: those at the `k` least distances,
/// nearest first, earlier rows first among equals.
pub open spec fn is_near(distances: Seq<Scalar>, labels: Seq<i64>, k: usize, near: Seq<i64>) -> bool {
    exists|p: Seq<usize>| #[trigger]
        order::is_permutation(p, distances.len() as int) && (order::all_numbers(distances)
            ==> order::is_ranking(distances, Direction::Minimize, p)) && near == Seq::new(
            (if k < p.len() {
                k as nat
            } else {
                p.len()
            }),
            |i: int| labels[p[i] as int],
        )
}

/// The labels of the `k` nearest rows, nearest first, earlier rows first among equals.
pub fn nearest_labels(distances: &Vec<Scalar>, labels: &Vec<i64>, k: usize) -> (r: Vec<i64>)
    requires
        distances@.len() == labels@.len(),
    ensures
        is_near(distances@, labels@, k, r@),
{
    let p = ranking(distances, Direction::Minimize);
    let mut out: Vec<i64> = Vec::new();
    let mut i: usize = 0;
    while i < k && i < p.len()
        invariant
            i <= k,
            i <= p@.len(),
            order::is_permutation(p@, labels@.len() as int),
            out@.len() == i,
            forall|x: int| 0 <= x < i ==> #[trigger] out@[x] == labels@[p@[x] as int],
        decreases p@.len() - i,
    {
        let at = p[i];
        out.push(labels[at]);
        i += 1;
    }
    proof {
        assert(out@ =~= Seq::new(
            (if k < p@.len() {
                k as nat
            } else {
                p@.len()
            }),
            |i: int| labels@[p@[i] as int],
        ));
    }
    out
}

/// Whether the `k` nearest rows elect `x`.
pub open spec fn elects(distances: Seq<Scalar>, labels: Seq<i64>, k: usize, x: i64) -> bool {
    exists|near: Seq<i64>| #[trigger] is_near(distances, labels, k, near) && wins(near, x)
}

/// The label that the `k` nearest rows elect; none if they are none.
pub fn classify(distances: &Vec<Scalar>, labels: &Vec<i64>, k: usize) -> (r: Option<i64>)
    requires
        distances@.len() == labels@.len(),
    ensures
        match r {
            Some(x) => elects(distances@, labels@, k, x),
            None => labels@.len() == 0 || k == 0,
        },
{
    let near = nearest_labels(distances, labels, k);
    vote(&near)
}

/// How many predictions are right.
pub open spec fn right(predictions: Seq<Option<i64>>, truths: Seq<i64>) -> nat
    decreases predictions.len(),
{
    if predictions.len() == 0 {
        0
    } else {
        right(predictions.drop_last(), truths) + if predictions.last() == Some(
            truths[predictions.len() - 1],
        ) {
            1nat
        } else {
            0nat
        }
    }
}

/// Counts the predictions that are right.
pub fn hits(predictions: &Vec<Option<i64>>, truths: &Vec<i64>) -> (n: usize)
    requires
        predictions@.len() == truths@.len(),
    ensures
        n == right(predictions@, truths@),
        n <= truths@.len(),
{
    let mut n: usize = 0;
    let mut i: usize = 0;
    proof {
        assert(predictions@.take(0).len() == 0);
    }
    while i < predictions.len()
        invariant
            i <= predictions@.len(),
            n <= i,
            predictions@.len() == truths@.len(),
            n == right(predictions@.take(i as int), truths@),
        decreases predictions@.len() - i,
    {
        proof {
            assert(predictions@.take(i + 1).drop_last() =~= predictions@.take(i as int));
        }
        if let Some(x) = predictions[i] {
            if x == truths[i] {
                n += 1;
            }
        }
        i += 1;
    }
    proof {
        assert(predictions@.take(i as int) =~= predictions@);
    }
    n
}

/// The distances of a row to others.
fn distances<V: Vectors>(x: &Vec<Scalar>, rows: &Vec<Vec<Scalar>>, vectors: &V) -> (d: Vec<
    Scalar,
>)
    ensures
        vectors::are_distances2(vectors, *x, rows@, d@),
{
    let mut d: Vec<Scalar> = Vec::new();
    let mut i: usize = 0;
    while i < rows.len()
        invariant
            i <= rows@.len(),
            d@.len() == i,
            forall|k: int|
                0 <= k < i ==> vectors::is_distance2(vectors, *x, rows@[k], #[trigger] d@[k]),
        decreases rows@.len() - i,
    {
        d.push(vectors.distance2(x, &rows[i]));
        i += 1;
    }
    d
}

/// The number of neighbours that `k` stands for among `n` rows: at least one, at most all.
pub open spec fn neighbours(k: usize, n: nat) -> usize {
    if k < 1 {
        1
    } else if k > n {
        n as usize
    } else {
        k
    }
}

/// Whether the `k` rows nearest to `x` elect the predicted label.
pub open spec fn is_vote<V: Vectors>(
    vectors: &V,
    x: Vec<Scalar>,
    train_x: Seq<Vec<Scalar>>,
    train_y: Seq<i64>,
    k: usize,
    prediction: Option<i64>,
) -> bool {
    exists|d: Seq<Scalar>| #[trigger]
        vectors::are_distances2(vectors, x, train_x, d) && (prediction matches Some(y) && elects(
            d,
            train_y,
            k,
            y,
        ))
}

/// Whether each of some rows is predicted by the `k` rows nearest to it.
pub open spec fn are_votes<V: Vectors>(
    vectors: &V,
    val_x: Seq<Vec<Scalar>>,
    train_x: Seq<Vec<Scalar>>,
    train_y: Seq<i64>,
    k: usize,
    predictions: Seq<Option<i64>>,
) -> bool {
    &&& predictions.len() == val_x.len()
    &&& forall|i: int|
        0 <= i < val_x.len() ==> is_vote(
            vectors,
            val_x[i],
            train_x,
            train_y,
            k,
            #[trigger] predictions[i],
        )
}

/// Whether `r` is the share of right predictions, in percent.
pub open spec fn is_accuracy<V: Vectors>(
    vectors: &V,
    predictions: Seq<Option<i64>>,
    truths: Seq<i64>,
    r: Scalar,
) -> bool {
    vectors::is_percent(
        vectors,
        right(predictions, truths) as usize,
        predictions.len() as usize,
        r,
    )
}

/// Whether `r` is the accuracy of the `k` nearest neighbours, in percent; zero without rows.
pub open spec fn is_knn_accuracy<V: Vectors>(
    vectors: &V,
    train_x: Seq<Vec<Scalar>>,
    train_y: Seq<i64>,
    val_x: Seq<Vec<Scalar>>,
    val_y: Seq<i64>,
    k: usize,
    r: Scalar,
) -> bool {
    if train_x.len() == 0 || val_x.len() == 0 {
        r.pattern() == 0
    } else {
        exists|predictions: Seq<Option<i64>>| #[trigger]
            are_votes(
                vectors,
                val_x,
                train_x,
                train_y,
                neighbours(k, train_x.len()),
                predictions,
            ) && is_accuracy(vectors, predictions, val_y, r)
    }
}

/// k-nearest-neighbour classification accuracy, in percent. Zero without rows to train on or to
/// validate on.
pub fn knn_accuracy<V: Vectors>(
    train_x: &Vec<Vec<Scalar>>,
    train_y: &Vec<i64>,
    val_x: &Vec<Vec<Scalar>>,
    val_y: &Vec<i64>,
    k: usize,
    vectors: &V,
) -> (r: Scalar)
    requires
        train_x@.len() == train_y@.len(),
        val_x@.len() == val_y@.len(),
    ensures
        is_knn_accuracy(vectors, train_x@, train_y@, val_x@, val_y@, k, r),
{
    if train_x.len() == 0 || val_x.len() == 0 {
        return Scalar::zero();
    }
    let ghost asked = k;
    let k: usize = if k < 1 {
        1
    } else if k > train_x.len() {
        train_x.len()
    } else {
        k
    };
    let mut predictions: Vec<Option<i64>> = Vec::new();
    let mut i: usize = 0;
    while i < val_x.len()
        invariant
            i <= val_x@.len(),
            predictions@.len() == i,
            train_x@.len() == train_y@.len(),
            train_x@.len() > 0,
            k >= 1,
            forall|x: int|
                0 <= x < i ==> is_vote(
                    vectors,
                    val_x@[x],
                    train_x@,
                    train_y@,
                    k,
                    #[trigger] predictions@[x],
                ),
        decreases val_x@.len() - i,
    {
        let d = distances(&val_x[i], train_x, vectors);
        let prediction = classify(&d, train_y, k);
        proof {
            assert(is_vote(vectors, val_x@[i as int], train_x@, train_y@, k, prediction));
        }
        predictions.push(prediction);
        i += 1;
    }
    let r = vectors.percent(hits(&predictions, val_y), val_x.len());
    proof {
        assert(k == neighbours(asked, train_x@.len()));
        assert(are_votes(vectors, val_x@, train_x@, train_y@, k, predictions@));
        assert(is_accuracy(vectors, predictions@, val_y@, r));
    }
    r
}

/// Whether `kinds` are the labels that occur, in increasing order, none twice.
pub open spec fn are_classes(labels: Seq<i64>, kinds: Seq<i64>) -> bool {
    &&& forall|i: int, j: int|
        0 <= i < j < kinds.len() ==> (#[trigger] kinds[i]) < (#[trigger] kinds[j])
    &&& forall|x: i64| #[trigger] kinds.contains(x) <==> labels.contains(x)
}

/// The labels that occur, in increasing order, none twice.
pub fn classes(labels: &Vec<i64>) -> (r: Vec<i64>)
    ensures
        are_classes(labels@, r@),
{
    let mut out: Vec<i64> = Vec::new();
    let mut i: usize = 0;
    while i < labels.len()
        invariant
            i <= labels@.len(),
            forall|a: int, b: int|
                0 <= a < b < out@.len() ==> (#[trigger] out@[a]) < (#[trigger] out@[b]),
            forall|x: i64| #[trigger]
                out@.contains(x) <==> labels@.take(i as int).contains(x),
        decreases labels@.len() - i,
    {
        let y = labels[i];
        let ghost before = out@;
        let mut at: usize = 0;
        while at < out.len() && out[at] < y
            invariant
                at <= out@.len(),
                forall|k: int| 0 <= k < at ==> (#[trigger] out@[k]) < y,
            decreases out@.len() - at,
        {
            at += 1;
        }
        if at == out.len() || out[at] != y {
            out.insert(at, y);
            proof {
                let after = before.insert(at as int, y);
                assert forall|a: int, b: int| 0 <= a < b < after.len() implies (
                #[trigger] after[a]) < (#[trigger] after[b]) by {
                    let u = if a < at {
                        a
                    } else {
                        a - 1
                    };
                    let v = if b < at {
                        b
                    } else {
                        b - 1
                    };
                    if a == at {
                        assert(before[at as int] <= before[v]);
                    } else if b == at {
                        assert(before[u] < y);
                    } else {
                        assert(before[u] < before[v]);
                    }
                }
            }
        }
        proof {
            let head = labels@.take(i as int);
            let more = labels@.take(i + 1);
            assert(more =~= head.push(y));
            assert forall|x: i64| #[trigger] out@.contains(x) <==> more.contains(x) by {
                assert(more.contains(x) <==> head.contains(x) || x == y) by {
                    if head.contains(x) {
                        assert(more[head.index_of(x)] == x);
                    }
                    if x == y {
                        assert(more[i as int] == x);
                    }
                    if more.contains(x) && x != y {
                        assert(head[more.index_of(x)] == x);
                    }
                }
                assert(before.contains(x) <==> head.contains(x));
                if out@.len() > before.len() {
                    if before.contains(x) {
                        let k = before.index_of(x);
                        assert(out@[if k < at {
                            k
                        } else {
                            k + 1
                        }] == x);
                    }
                    if x == y {
                        assert(out@[at as int] == x);
                    }
                    if out@.contains(x) && x != y {
                        let k = out@.index_of(x);
                        assert(before[if k < at {
                            k
                        } else {
                            k - 1
                        }] == x);
                    }
                } else if x == y {
                    assert(before[at as int] == y);
                }
            }
        }
        i += 1;
    }
    proof {
        assert(labels@.take(i as int) =~= labels@);
    }
    out
}

/// Selects the rows with a label.
pub open spec fn labelled(y: i64) -> spec_fn((usize, i64)) -> Option<usize> {
    |p: (usize, i64)|
        if p.1 == y {
            Some(p.0)
        } else {
            None
        }
}

/// The rows with their labels.
pub open spec fn numbered(labels: Seq<i64>) -> Seq<(usize, i64)> {
    Seq::new(labels.len(), |i: int| (i as usize, labels[i]))
}

/// The rows with a label, in order.
pub open spec fn rows_of(labels: Seq<i64>, y: i64) -> Seq<usize> {
    models::pick(numbered(labels), labelled(y))
}

/// The rows with a label, in order.
fn rows_with(labels: &Vec<i64>, y: i64) -> (at: Vec<usize>)
    ensures
        at@ == rows_of(labels@, y),
        forall|k: int| 0 <= k < at@.len() ==> (#[trigger] at@[k]) < labels@.len(),
{
    let mut at: Vec<usize> = Vec::new();
    let ghost all = numbered(labels@);
    let ghost f = labelled(y);
    let mut i: usize = 0;
    proof {
        assert(all.take(0).len() == 0);
    }
    while i < labels.len()
        invariant
            i <= labels@.len(),
            all == numbered(labels@),
            f == labelled(y),
            at@ == models::pick(all.take(i as int), f),
            forall|k: int| 0 <= k < at@.len() ==> (#[trigger] at@[k]) < labels@.len(),
        decreases labels@.len() - i,
    {
        proof {
            models::pick_step(all, i as int, f);
            assert(all[i as int] == (i, labels@[i as int]));
        }
        if labels[i] == y {
            at.push(i);
        }
        i += 1;
    }
    proof {
        models::pick_whole(all, f);
    }
    at
}

/// Whether `centroids` are the means of the rows of each class.
pub open spec fn are_centroids<V: Vectors>(
    vectors: &V,
    train_x: Seq<Vec<Scalar>>,
    train_y: Seq<i64>,
    kinds: Seq<i64>,
    centroids: Seq<Vec<Scalar>>,
) -> bool {
    &&& centroids.len() == kinds.len()
    &&& forall|c: int|
        0 <= c < kinds.len() ==> vectors::is_center(
            vectors,
            train_x,
            rows_of(train_y, kinds[c]),
            train_x[0]@.len() as int,
            #[trigger] centroids[c]@,
        )
}

/// Whether the class of the centroid nearest to `x` is predicted: the first at the least distance.
pub open spec fn is_closest<V: Vectors>(
    vectors: &V,
    x: Vec<Scalar>,
    kinds: Seq<i64>,
    centroids: Seq<Vec<Scalar>>,
    prediction: Option<i64>,
) -> bool {
    exists|d: Seq<Scalar>, c: int| #[trigger]
        vectors::are_distances2(vectors, x, centroids, d) && 0 <= c < d.len() && c
            == vectors::least_met(d) && prediction == Some(
            #[trigger] kinds[c],
        )
}

/// Whether each of some rows is predicted by the centroid nearest to it.
pub open spec fn are_closest<V: Vectors>(
    vectors: &V,
    val_x: Seq<Vec<Scalar>>,
    kinds: Seq<i64>,
    centroids: Seq<Vec<Scalar>>,
    predictions: Seq<Option<i64>>,
) -> bool {
    &&& predictions.len() == val_x.len()
    &&& forall|i: int|
        0 <= i < val_x.len() ==> is_closest(
            vectors,
            val_x[i],
            kinds,
            centroids,
            #[trigger] predictions[i],
        )
}

/// Whether `r` is the accuracy of the nearest class centroid, in percent; zero without rows.
pub open spec fn is_centroid_accuracy<V: Vectors>(
    vectors: &V,
    train_x: Seq<Vec<Scalar>>,
    train_y: Seq<i64>,
    val_x: Seq<Vec<Scalar>>,
    val_y: Seq<i64>,
    r: Scalar,
) -> bool {
    if train_x.len() == 0 || val_x.len() == 0 {
        r.pattern() == 0
    } else {
        exists|
            kinds: Seq<i64>,
            centroids: Seq<Vec<Scalar>>,
            predictions: Seq<Option<i64>>,
        |
            are_classes(train_y, kinds) && #[trigger] are_centroids(
                vectors,
                train_x,
                train_y,
                kinds,
                centroids,
            ) && #[trigger] are_closest(vectors, val_x, kinds, centroids, predictions)
                && is_accuracy(vectors, predictions, val_y, r)
    }
}

/// Nearest-class-centroid classification accuracy, in percent. Zero without rows to train on or
/// to validate on.
pub fn centroid_accuracy<V: Vectors>(
    train_x: &Vec<Vec<Scalar>>,
    train_y: &Vec<i64>,
    val_x: &Vec<Vec<Scalar>>,
    val_y: &Vec<i64>,
    vectors: &V,
) -> (r: Scalar)
    requires
        train_x@.len() == train_y@.len(),
        val_x@.len() == val_y@.len(),
        train_x@.len() > 0 ==> vectors::rectangular(train_x@, train_x@[0]@.len() as int),
    ensures
        is_centroid_accuracy(vectors, train_x@, train_y@, val_x@, val_y@, r),
{
    if train_x.len() == 0 || val_x.len() == 0 {
        return Scalar::zero();
    }
    let d = train_x[0].len();
    let kinds = classes(train_y);
    proof {
        assert(train_y@.contains(train_y@[0]));
        assert(kinds@.contains(train_y@[0]));
    }
    let mut centroids: Vec<Vec<Scalar>> = Vec::new();
    let mut c: usize = 0;
    while c < kinds.len()
        invariant
            c <= kinds@.len(),
            centroids@.len() == c,
            train_x@.len() == train_y@.len(),
            vectors::rectangular(train_x@, d as int),
            forall|x: int|
                0 <= x < c ==> vectors::is_center(
                    vectors,
                    train_x@,
                    rows_of(train_y@, kinds@[x]),
                    d as int,
                    #[trigger] centroids@[x]@,
                ),
        decreases kinds@.len() - c,
    {
        let at = rows_with(train_y, kinds[c]);
        centroids.push(center_of(train_x, &at, d, vectors));
        c += 1;
    }
    let mut predictions: Vec<Option<i64>> = Vec::new();
    let mut i: usize = 0;
    while i < val_x.len()
        invariant
            i <= val_x@.len(),
            predictions@.len() == i,
            kinds@.len() > 0,
            centroids@.len() == kinds@.len(),
            forall|x: int|
                0 <= x < i ==> is_closest(
                    vectors,
                    val_x@[x],
                    kinds@,
                    centroids@,
                    #[trigger] predictions@[x],
                ),
        decreases val_x@.len() - i,
    {
        let d = distances(&val_x[i], &centroids, vectors);
        let nearest = first_least(&d);
        let prediction = Some(kinds[nearest]);
        proof {
            assert(prediction == Some(kinds@[nearest as int]));
            assert(is_closest(vectors, val_x@[i as int], kinds@, centroids@, prediction));
        }
        predictions.push(prediction);
        i += 1;
    }
    let r = vectors.percent(hits(&predictions, val_y), val_x.len());
    proof {
        assert(are_centroids(vectors, train_x@, train_y@, kinds@, centroids@));
        assert(are_closest(vectors, val_x@, kinds@, centroids@, predictions@));
        assert(is_accuracy(vectors, predictions@, val_y@, r));
    }
    r
}

/// The objective of a pipeline search: the validation accuracy of a pipeline.
#[derive(Debug)]
pub struct PipelineObjective<V> {
    features: Vec<Vec<Scalar>>,
    labels: Vec<i64>,
    train: Vec<usize>,
    val: Vec<usize>,
    vectors: V,
}

/// Whether `r` holds the transformed rows at the given positions.
pub open spec fn are_transformed<V: Vectors>(
    vectors: &V,
    p: Preprocess,
    rows: Seq<Vec<Scalar>>,
    at: Seq<usize>,
    r: Seq<Vec<Scalar>>,
) -> bool {
    &&& r.len() == at.len()
    &&& forall|x: int|
        0 <= x < at.len() ==> p.is_applied(vectors, rows[at[x] as int]@, #[trigger] r[x]@)
}

/// The transformed rows at the given positions.
fn transformed<V: Vectors>(
    rows: &Vec<Vec<Scalar>>,
    at: &Vec<usize>,
    p: &Preprocess,
    vectors: &V,
) -> (r: Vec<Vec<Scalar>>)
    requires
        rows@.len() > 0,
        vectors::rectangular(rows@, rows@[0]@.len() as int),
        p.fits(rows@[0]@.len() as int),
        forall|k: int| 0 <= k < at@.len() ==> (#[trigger] at@[k]) < rows@.len(),
    ensures
        are_transformed(vectors, *p, rows@, at@, r@),
        vectors::rectangular(r@, rows@[0]@.len() as int),
{
    let mut out: Vec<Vec<Scalar>> = Vec::new();
    let ghost d = rows@[0]@.len() as int;
    let mut k: usize = 0;
    while k < at.len()
        invariant
            k <= at@.len(),
            vectors::rectangular(rows@, d),
            p.fits(d),
            forall|k: int| 0 <= k < at@.len() ==> (#[trigger] at@[k]) < rows@.len(),
            out@.len() == k,
            vectors::rectangular(out@, d),
            forall|x: int|
                0 <= x < k ==> p.is_applied(
                    vectors,
                    rows@[at@[x] as int]@,
                    #[trigger] out@[x]@,
                ),
        decreases at@.len() - k,
    {
        let row = &rows[at[k]];
        proof {
            assert(rows@[at@[k as int] as int]@.len() == d);
        }
        out.push(p.apply(row, vectors));
        k += 1;
    }
    out
}

fn labels_at(labels: &Vec<i64>, at: &Vec<usize>) -> (r: Vec<i64>)
    requires
        forall|k: int| 0 <= k < at@.len() ==> (#[trigger] at@[k]) < labels@.len(),
    ensures
        r@ == at@.map_values(|i: usize| labels@[i as int]),
{
    let mut out: Vec<i64> = Vec::new();
    let mut k: usize = 0;
    while k < at.len()
        invariant
            k <= at@.len(),
            forall|k: int| 0 <= k < at@.len() ==> (#[trigger] at@[k]) < labels@.len(),
            out@.len() == k,
            forall|x: int| 0 <= x < k ==> #[trigger] out@[x] == labels@[at@[x] as int],
        decreases at@.len() - k,
    {
        out.push(labels[at[k]]);
        k += 1;
    }
    proof {
        assert(out@ =~= at@.map_values(|i: usize| labels@[i as int]));
    }
    out
}

impl<V> PipelineObjective<V> {
    /// The rows are rectangular and labelled, and the positions are rows.
    #[verifier::type_invariant]
    spec fn usable(self) -> bool {
        &&& self.features@.len() > 0
        &&& vectors::rectangular(self.features@, self.features@[0]@.len() as int)
        &&& self.labels@.len() == self.features@.len()
        &&& forall|k: int|
            0 <= k < self.train@.len() ==> (#[trigger] self.train@[k]) < self.features@.len()
        &&& forall|k: int|
            0 <= k < self.val@.len() ==> (#[trigger] self.val@[k]) < self.features@.len()
    }
}

/// Whether a plan preprocesses by `kind`; not at all without such a stage.
pub open spec fn preprocesses_by(plan: Seq<pipeline::ChoiceModel>, kind: Seq<char>) -> bool {
    ||| exists|i: int| #[trigger]
        pipeline::first_for(plan, "preprocess"@, i) && kind == plan[i].component
    ||| pipeline::none_for(plan, "preprocess"@) && kind == "none"@
}

/// Whether a plan classifies by so many neighbours, or by centroids if that is nothing; the number
/// of neighbours is three where the plan has none.
pub open spec fn classifies_by(plan: Seq<pipeline::ChoiceModel>, k: Option<usize>) -> bool {
    ||| exists|i: int| #[trigger]
        pipeline::first_for(plan, "model"@, i) && k == if plan[i].component == "knn"@ {
            Some(
                match param::integer_in(plan[i].params, "k"@) {
                    Some(n) => n as usize,
                    None => 3,
                },
            )
        } else {
            None
        }
    ||| pipeline::none_for(plan, "model"@) && k is None
}

/// What a [`PipelineObjective`] stands for in contracts.
pub struct PipelineTask<V> {
    /// The rows.
    pub features: Seq<Vec<Scalar>>,
    /// The labels of the rows.
    pub labels: Seq<i64>,
    /// The rows to train on.
    pub train: Seq<usize>,
    /// The rows to validate on.
    pub val: Seq<usize>,
    /// Who is asked for arithmetic on vectors.
    pub vectors: V,
}

impl<V> View for PipelineObjective<V> {
    type V = PipelineTask<V>;

    closed spec fn view(&self) -> PipelineTask<V> {
        PipelineTask {
            features: self.features@,
            labels: self.labels@,
            train: self.train@,
            val: self.val@,
            vectors: self.vectors,
        }
    }
}

impl<V: Vectors> PipelineTask<V> {
    /// Whether `accuracy` is that of a classifier trained and validated on preprocessed rows.
    pub open spec fn validates(
        self,
        kind: Seq<char>,
        k: Option<usize>,
        accuracy: Scalar,
    ) -> bool {
        exists|p: Preprocess, train_x: Seq<Vec<Scalar>>, val_x: Seq<Vec<Scalar>>|
            p.is_fitted(&self.vectors, kind, self.features, self.train)
                && #[trigger] are_transformed(
                &self.vectors,
                p,
                self.features,
                self.train,
                train_x,
            ) && #[trigger] are_transformed(
                &self.vectors,
                p,
                self.features,
                self.val,
                val_x,
            ) && self.classifies(train_x, val_x, k, accuracy)
    }

    /// Whether `accuracy` is that of a classifier trained and validated on rows.
    pub open spec fn classifies(
        self,
        train_x: Seq<Vec<Scalar>>,
        val_x: Seq<Vec<Scalar>>,
        k: Option<usize>,
        accuracy: Scalar,
    ) -> bool {
        let train_y = self.train.map_values(|i: usize| self.labels[i as int]);
        let val_y = self.val.map_values(|i: usize| self.labels[i as int]);
        match k {
            Some(k) => is_knn_accuracy(
                &self.vectors,
                train_x,
                train_y,
                val_x,
                val_y,
                k,
                accuracy,
            ),
            None => is_centroid_accuracy(
                &self.vectors,
                train_x,
                train_y,
                val_x,
                val_y,
                accuracy,
            ),
        }
    }

    /// Whether `accuracy` is the validation accuracy of a plan.
    pub open spec fn achieves(
        self,
        plan: Seq<pipeline::ChoiceModel>,
        accuracy: Scalar,
    ) -> bool {
        exists|kind: Seq<char>, k: Option<usize>| #[trigger]
            preprocesses_by(plan, kind) && #[trigger] classifies_by(plan, k) && self.validates(
                kind,
                k,
                accuracy,
            )
    }
}

impl<V: Vectors + Clone> Objective for PipelineObjective<V> {
    open spec fn allows(
        &self,
        params: Assignment,
        reports: ReportLog,
        stopped: bool,
        outcome: Outcome,
    ) -> bool {
        reports == Seq::<(u64, Metrics)>::empty() && match outcome {
            Ok(m) => pipeline::decodable(stages(), params, 2) && m.dom() == set!["accuracy"@]
                && self@.achieves(pipeline::decoded(stages(), params), m["accuracy"@]),
            Err(e) => !pipeline::decodable(stages(), params, 2) && exists|i: int| #[trigger]
                pipeline::faulty_at(stages(), params, e, i),
        }
    }

    fn evaluate<K: ReportSink>(&self, params: &ParamSet, report: &mut K) -> (r: Result<
        NamedMetrics,
        Error,
    >) {
        proof {
            let none = Seq::<(u64, Metrics)>::empty();
            assert(report.log() + none =~= report.log());
            assert(objective::log_grows(report.log(), none, report.log()));
        }
        proof {
            use_type_invariant(self);
        }
        let space = AutoPipeline::space();
        let plan = match space.decode(params) {
            Ok(p) => p,
            Err(e) => {
                return Err(e);
            },
        };
        let kind = match plan.component("preprocess") {
            Some(c) => c,
            None => "none",
        };
        proof {
            assert(preprocesses_by(plan@, kind@));
        }
        let p = Preprocess::fit(kind, &self.features, &self.train, &self.vectors);
        let train_x = transformed(&self.features, &self.train, &p, &self.vectors);
        let val_x = transformed(&self.features, &self.val, &p, &self.vectors);
        let train_y = labels_at(&self.labels, &self.train);
        let val_y = labels_at(&self.labels, &self.val);
        let mut neighbours: Option<usize> = None;
        if let Some(c) = plan.choice("model") {
            if same_text(c.component.as_str(), "knn") {
                neighbours = Some(
                    match c.params.integer("k") {
                        Ok(k) => k as usize,
                        Err(_) => 3,
                    },
                );
            }
        }
        proof {
            assert(classifies_by(plan@, neighbours));
        }
        let accuracy = match neighbours {
            Some(k) => knn_accuracy(&train_x, &train_y, &val_x, &val_y, k, &self.vectors),
            None => centroid_accuracy(&train_x, &train_y, &val_x, &val_y, &self.vectors),
        };
        let m = NamedMetrics::single("accuracy", accuracy);
        proof {
            assert(m@.dom() =~= set!["accuracy"@]);
            assert(self@.classifies(train_x@, val_x@, neighbours, accuracy));
            let task = self@;
            assert(p.is_fitted(&task.vectors, kind@, task.features, task.train));
            assert(are_transformed(&task.vectors, p, task.features, task.train, train_x@));
            assert(are_transformed(&task.vectors, p, task.features, task.val, val_x@));
            assert(self@.validates(kind@, neighbours, accuracy));
            assert(self@.achieves(plan@, accuracy));
        }
        Ok(m)
    }
}

/// The stages of the pipeline space.
pub open spec fn stages() -> Seq<StageModel> {
    let plain = |name: Seq<char>| ComponentModel { name, knobs: Seq::empty() };
    seq![
        StageModel {
            name: "preprocess"@,
            components: seq![plain("standardize"@), plain("normalize"@), plain("none"@)],
        },
        StageModel {
            name: "model"@,
            components: seq![
                plain("centroid"@),
                ComponentModel {
                    name: "knn"@,
                    knobs: seq![
                        KnobModel {
                            name: "k"@,
                            dist: DistModel::Int { low: 1, high: 15, log: false, step: 1 },
                        },
                    ],
                },
            ],
        },
    ]
}

/// One-call tabular pipeline search: jointly searches a preprocessing transform and a
/// classifier, maximizing validation accuracy.
#[derive(Debug)]
pub struct AutoPipeline {
    features: Vec<Vec<Scalar>>,
    labels: Vec<i64>,
    trials: u64,
    val_fraction: Scalar,
    seed: u64,
}

impl AutoPipeline {
    /// The rows.
    pub closed spec fn rows(self) -> Seq<Vec<Scalar>> {
        self.features@
    }

    /// The labels of the rows.
    pub closed spec fn marks(self) -> Seq<i64> {
        self.labels@
    }

    /// The share of the rows that is held out.
    pub closed spec fn holds_out(self) -> Scalar {
        self.val_fraction
    }

    /// Search trials.
    pub closed spec fn runs(self) -> u64 {
        self.trials
    }

    /// The seed.
    pub closed spec fn seeded(self) -> u64 {
        self.seed
    }

    /// Whether the data is non-empty, rectangular, and matches its labels.
    pub open spec fn usable(self) -> bool {
        &&& self.rows().len() > 0
        &&& self.rows().len() == self.marks().len()
        &&& vectors::rectangular(self.rows(), self.rows()[0]@.len() as int)
    }

    /// Whether `task` is what a search poses: its rows and labels, split by the share that is held
    /// out.
    pub open spec fn poses<V: Vectors>(self, vectors: &V, task: PipelineTask<V>) -> bool {
        let n = self.rows().len() as usize;
        &&& task.features == self.rows()
        &&& task.labels == self.marks()
        &&& task.vectors == *vectors
        &&& exists|asked: usize| #[trigger]
            vectors::is_held_out(vectors, self.holds_out(), n, asked) && is_split(
                n,
                asked,
                self.seeded(),
                task.train,
                task.val,
            )
    }

    /// A pipeline search over row-major `features` and integer `labels`.
    pub fn new(features: Vec<Vec<Scalar>>, labels: Vec<i64>) -> (a: Self)
        ensures
            a.rows() == features@,
            a.marks() == labels@,
            a.holds_out() == (Scalar { bits: 0x3fd0_0000_0000_0000 }),
            a.runs() == 16,
            a.seeded() == 0,
    {
        AutoPipeline {
            features,
            labels,
            trials: 16,
            val_fraction: Scalar::from_bits(0x3fd0_0000_0000_0000),
            seed: 0,
        }
    }

    /// Number of pipeline configurations to try.
    pub fn trials(self, t: u64) -> (a: Self)
        ensures
            a.rows() == self.rows(),
            a.marks() == self.marks(),
            a.holds_out() == self.holds_out(),
            a.runs() == t,
            a.seeded() == self.seeded(),
    {
        let mut a = self;
        a.trials = t;
        a
    }

    /// Seed for the split and search.
    pub fn seed(self, s: u64) -> (a: Self)
        ensures
            a.rows() == self.rows(),
            a.marks() == self.marks(),
            a.holds_out() == self.holds_out(),
            a.runs() == self.runs(),
            a.seeded() == s,
    {
        let mut a = self;
        a.seed = s;
        a
    }

    /// The pipeline search space: a preprocessing stage and a model stage.
    pub fn space() -> (p: PipelineSpace)
        ensures
            p@ == stages(),
    {
        let preprocess = Stage::new("preprocess").component(
            Component::new("standardize"),
        ).component(Component::new("normalize")).component(Component::new("none"));
        let model = Stage::new("model").component(Component::new("centroid")).component(
            Component::new("knn").param("k", Distribution::integer(1, 15)),
        );
        let p = PipelineSpace::new().stage(preprocess).stage(model);
        proof {
            let want = stages();
            assert(preprocess@.components =~= want[0].components);
            assert(model@.components[1].knobs =~= want[1].components[1].knobs);
            assert(model@.components =~= want[1].components);
            assert(p@ =~= want);
        }
        p
    }

    /// Run the search, returning the study (maximizing validation accuracy).
    pub fn fit<R: Reals, V: Vectors + Clone>(self, reals: R, vectors: V) -> (r: Result<
        Study<InMemoryStorage, TpeSampler, NoPruner, R>,
        Error,
    >)
        requires
            self.runs() < u64::MAX,
        ensures
            r is Ok <==> self.usable(),
            match r {
                Ok(s) => s.well_formed() && s.meta().name == "auto-pipeline"@
                    && s.aims() == seq![("accuracy"@, Direction::Maximize)]
                    && s.searches() == pipeline::encoded(stages()) && s.seed() == self.seeded()
                    && s.trials().len() == self.runs() && (forall|i: int|
                    0 <= i < s.trials().len() ==> run::settled(#[trigger] s.trials()[i]))
                    && s.rig().reals == reals && exists|
                    o: PipelineObjective<V>,
                    sampler: TpeSampler,
                | #[trigger]
                    s.searched(o, self.runs(), sampler) && self.poses(&vectors, o@) && sampler@
                        == tpe::usual("accuracy"@, Direction::Maximize, self.seeded()),
                Err(e) => e matches Error::Objective(m) && m@
                    == "pipeline data must be non-empty, rectangular, and match labels"@,
            },
    {
        if self.features.len() == 0 || self.features.len() != self.labels.len()
            || !is_rectangular(&self.features, self.features[0].len()) {
            return Err(
                Error::Objective(
                    "pipeline data must be non-empty, rectangular, and match labels".to_owned(),
                ),
            );
        }
        let space = Self::space().to_search_space();
        proof {
            pipeline_space_is_sound();
        }
        let sampler = TpeSampler::new("accuracy", Direction::Maximize, self.seed);
        let ghost first = sampler;
        let builder = Study::builder(space, reals).name("auto-pipeline").maximize(
            "accuracy",
        ).sampler(sampler).seed(self.seed);
        let mut study = match builder.build() {
            Ok(s) => s,
            Err(e) => {
                return Err(e);
            },
        };
        let n = self.features.len();
        let asked = vectors.held_out(self.val_fraction, n);
        proof {
            assert(vectors::is_held_out(&vectors, self.val_fraction, n, asked));
        }
        let (train, val) = split(n, asked, self.seed);
        proof {
            assert forall|k: int| 0 <= k < train@.len() implies (#[trigger] train@[k]) < n by {
                law_split_is_a_partition(train@, val@, n, train@[k]);
                assert(train@.contains(train@[k]));
            }
            assert forall|k: int| 0 <= k < val@.len() implies (#[trigger] val@[k]) < n by {
                law_split_is_a_partition(train@, val@, n, val@[k]);
                assert(val@.contains(val@[k]));
            }
        }
        let objective = PipelineObjective {
            features: self.features,
            labels: self.labels,
            train,
            val,
            vectors,
        };
        let ghost fresh = study.bench();
        proof {
            assert(fresh.trials =~= Seq::<TrialModel>::empty());
            assert(fresh == (Bench { trials: Seq::<TrialModel>::empty(), sampler: first }));
        }
        match study.optimize_n(&objective, self.trials) {
            Ok(_) => {},
            Err(e) => {
                return Err(e);
            },
        }
        proof {
            assert(study.aims() =~= seq![("accuracy"@, Direction::Maximize)]);
            let task = objective@;
            assert(task.features == self.rows() && task.labels == self.marks());
            assert(task.vectors == vectors);
            assert(n == self.rows().len() as usize);
            assert(is_split(n, asked, self.seeded(), task.train, task.val));
            assert(vectors::is_held_out(&vectors, self.holds_out(), n, asked));
            assert(self.poses(&vectors, task));
            assert(study.searched(objective, self.trials, first));
        }
        Ok(study)
    }
}

/// The pipeline space is sound and can be drawn from.
proof fn pipeline_space_is_sound()
    ensures
        space::space_sound(pipeline::encoded(stages())),
        space::drawable_space(pipeline::encoded(stages())),
{
    let s = stages();
    let defs = pipeline::encoded(s);
    reveal_with_fuel(pipeline::encoded, 3);
    reveal_with_fuel(pipeline::component_defs, 4);
    assert(s.drop_last() =~= seq![s[0]]);
    assert(s.drop_last().drop_last() =~= Seq::<StageModel>::empty());
    let none = Seq::<space::DefModel>::empty();
    let pre = s[0].components;
    assert(pipeline::knob_defs(s[0].name, pre[0]) =~= none);
    assert(pipeline::knob_defs(s[0].name, pre[1]) =~= none);
    assert(pipeline::knob_defs(s[0].name, pre[2]) =~= none);
    assert(pre.drop_last() =~= seq![pre[0], pre[1]]);
    assert(pre.drop_last().drop_last() =~= seq![pre[0]]);
    assert(pre.drop_last().drop_last().drop_last() =~= Seq::<ComponentModel>::empty());
    assert(pipeline::component_defs(s[0].name, pre) =~= none);
    let model = s[1].components;
    let knob = pipeline::knob_def("model"@, "knn"@, model[1].knobs[0]);
    assert(pipeline::knob_defs(s[1].name, model[0]) =~= none);
    assert(pipeline::knob_defs(s[1].name, model[1]) =~= seq![knob]);
    assert(model.drop_last() =~= seq![model[0]]);
    assert(model.drop_last().drop_last() =~= Seq::<ComponentModel>::empty());
    assert(pipeline::component_defs(s[1].name, model) =~= seq![knob]);
    assert(defs =~= seq![pipeline::choice_def(s[0]), pipeline::choice_def(s[1]), knob]);
    reveal_strlit("preprocess");
    reveal_strlit("model");
    reveal_strlit(".");
    assert("preprocess"@.len() == 10 && "model"@.len() == 5 && "."@.len() == 1);
    assert(knob.name[5] == '.') by {
        reveal_strlit("knn");
        reveal_strlit("k");
    }
    assert("preprocess"@[5] == 'o');
    reveal_strlit("knn");
    reveal_strlit("k");
    assert(knob.name.len() == 11);
    let names = s[1].components.map_values(|c: ComponentModel| c.name);
    assert(names[1] == "knn"@);
    assert(names.contains("knn"@));
    space::find_def_is_first(defs, "model"@, 1);
    assert(space::def_sound(defs, 0));
    assert(!space::declared_before(defs, 1, "model"@));
    assert(space::def_sound(defs, 1));
    assert(!space::declared_before(defs, 2, knob.name));
    assert(defs[1].name == "model"@);
    assert(space::declared_before(defs, 2, "model"@));
    let c = pipeline::gate("model"@, "knn"@);
    assert(c.equals[0] == crate::param::ParamModel::Categorical("knn"@));
    assert(space::gate_reachable(defs, c));
    assert(space::def_sound(defs, 2));
}

/// Tells a label.
pub open spec fn is_label(label: i64) -> spec_fn(i64) -> bool {
    |x: i64| x == label
}

proof fn votes_are_counted(labels: Seq<i64>, label: i64)
    ensures
        votes_for(labels, label) == labels.filter(is_label(label)).len(),
    decreases labels.len(),
{
    reveal(Seq::filter);
    if labels.len() > 0 {
        votes_are_counted(labels.drop_last(), label);
    }
}

/// A vote goes to a most frequent label: no label occurs more often, and of those that occur as
/// often it is the greatest.
pub proof fn law_the_most_frequent_label_wins(labels: Seq<i64>, winner: i64, x: i64)
    requires
        wins(labels, winner),
        labels.contains(x),
    ensures
        labels.contains(winner),
        labels.filter(is_label(x)).len() <= labels.filter(is_label(winner)).len(),
        labels.filter(is_label(x)).len() == labels.filter(is_label(winner)).len() ==> x <= winner,
{
    votes_are_counted(labels, winner);
    votes_are_counted(labels, x);
    assert(votes_for(labels, x) <= votes_for(labels, winner));
}

/// The rows that vote are the nearest: as many as are asked for, as far as there are any, and no
/// row that has no vote is nearer than one that has.
pub proof fn law_the_nearest_rows_vote(
    distances: Seq<Scalar>,
    labels: Seq<i64>,
    k: usize,
    x: i64,
)
    requires
        elects(distances, labels, k, x),
        order::all_numbers(distances),
        distances.len() == labels.len(),
    ensures
        exists|voters: Seq<int>|
            #[trigger] voters.no_duplicates() && (voters.len() == k || (voters.len() < k
                && voters.len() == distances.len())) && (forall|i: int|
                0 <= i < voters.len() ==> 0 <= #[trigger] voters[i] < distances.len()) && (forall|
                i: int,
                j: int,
            |
                0 <= i < voters.len() && 0 <= j < distances.len() && !voters.contains(j)
                    ==> !(#[trigger] distances[j]).less(distances[#[trigger] voters[i]])) && wins(
                Seq::new(voters.len(), |i: int| labels[voters[i]]),
                x,
            ),
{
    let near = choose|near: Seq<i64>| #[trigger] is_near(distances, labels, k, near) && wins(near, x);
    let p = choose|p: Seq<usize>| #[trigger]
        order::is_permutation(p, distances.len() as int) && (order::all_numbers(distances)
            ==> order::is_ranking(distances, Direction::Minimize, p)) && near == Seq::new(
            (if k < p.len() {
                k as nat
            } else {
                p.len()
            }),
            |i: int| labels[p[i] as int],
        );
    let voters = Seq::new(near.len(), |i: int| p[i] as int);
    assert(voters.no_duplicates()) by {
        assert forall|i: int, j: int|
            0 <= i < voters.len() && 0 <= j < voters.len() && i != j implies voters[i]
            != voters[j] by {
            if i < j {
                assert(p[i] != p[j]);
            } else {
                assert(p[j] != p[i]);
            }
        }
    }
    assert forall|i: int| 0 <= i < voters.len() implies 0 <= #[trigger] voters[i]
        < distances.len() by {
        assert(p[i] < distances.len());
    }
    assert forall|i: int, j: int|
        0 <= i < voters.len() && 0 <= j < distances.len() && !voters.contains(j) implies !(
    #[trigger] distances[j]).less(distances[#[trigger] voters[i]]) by {
        order::permutation_is_onto(p, distances.len() as int, j);
        let b = choose|b: int| 0 <= b < p.len() && #[trigger] p[b] == j;
        if b < voters.len() {
            assert(voters[b] == j);
        }
        order::law_rankings_put_the_better_first(distances, Direction::Minimize, p, i, b);
    }
    assert(near =~= Seq::new(voters.len(), |i: int| labels[voters[i]]));
}

/// Predictions and truths side by side.
pub open spec fn compared(predictions: Seq<Option<i64>>, truths: Seq<i64>) -> Seq<
    (Option<i64>, i64),
> {
    Seq::new(predictions.len(), |i: int| (predictions[i], truths[i]))
}

/// Tells a prediction that is true.
pub open spec fn came_true() -> spec_fn((Option<i64>, i64)) -> bool {
    |p: (Option<i64>, i64)| p.0 == Some(p.1)
}

proof fn right_are_counted(predictions: Seq<Option<i64>>, truths: Seq<i64>)
    ensures
        right(predictions, truths) == compared(predictions, truths).filter(came_true()).len(),
    decreases predictions.len(),
{
    reveal(Seq::filter);
    if predictions.len() > 0 {
        right_are_counted(predictions.drop_last(), truths);
        assert(compared(predictions, truths).drop_last() =~= compared(
            predictions.drop_last(),
            truths,
        ));
    }
}

/// Accuracy is the share of predictions that came true, out of all of them.
pub proof fn law_accuracy_counts_what_came_true<V: Vectors>(
    vectors: &V,
    predictions: Seq<Option<i64>>,
    truths: Seq<i64>,
    r: Scalar,
)
    requires
        is_accuracy(vectors, predictions, truths, r),
    ensures
        call_ensures(
            V::percent,
            (
                vectors,
                compared(predictions, truths).filter(came_true()).len() as usize,
                predictions.len() as usize,
            ),
            r,
        ),
{
    right_are_counted(predictions, truths);
}

/// A row gets the class of a nearest centroid: none lies at a lesser distance.
pub proof fn law_the_nearest_centroid_names_the_class<V: Vectors>(
    vectors: &V,
    x: Vec<Scalar>,
    kinds: Seq<i64>,
    centroids: Seq<Vec<Scalar>>,
    prediction: Option<i64>,
)
    requires
        is_closest(vectors, x, kinds, centroids, prediction),
    ensures
        exists|c: int|
            vectors::is_no_farther(vectors, x, centroids, c) && prediction == Some(
                #[trigger] kinds[c],
            ),
{
    let (d, c) = choose|d: Seq<Scalar>, c: int| #[trigger]
        vectors::are_distances2(vectors, x, centroids, d) && 0 <= c < d.len() && c
            == vectors::least_met(d) && prediction == Some(#[trigger] kinds[c]);
    vectors::law_least_met_is_first_least(d);
    if order::all_numbers(d) {
        assert forall|j: int| 0 <= j < d.len() implies !(#[trigger] d[j]).less(d[c]) by {
            assert(d[c].key() <= d[j].key());
        }
    }
    assert(vectors::is_no_farther(vectors, x, centroids, c));
}

/// Whether rows at some places are scaled column by column, each number shifted and divided by
/// what was found for its column.
pub open spec fn all_scaled<V: Vectors>(
    vectors: &V,
    rows: Seq<Vec<Scalar>>,
    at: Seq<usize>,
    scales: Seq<(Scalar, Scalar)>,
    out: Seq<Vec<Scalar>>,
) -> bool {
    &&& out.len() == at.len()
    &&& forall|x: int, j: int|
        0 <= x < at.len() && 0 <= j < rows[at[x] as int]@.len() && j < scales.len()
            ==> vectors::is_scaled(
            vectors,
            rows[at[x] as int]@[j],
            scales[j].0,
            scales[j].1,
            #[trigger] out[x]@[j],
        )
}

/// A pipeline that standardizes learns the mean and the deviation of each column from the rows it
/// trains on alone, and scales the rows it validates on by the same numbers.
pub proof fn law_standardizing_learns_from_training_alone<V: Vectors>(
    task: PipelineTask<V>,
    k: Option<usize>,
    accuracy: Scalar,
)
    requires
        task.validates("standardize"@, k, accuracy),
        task.features.len() > 0,
    ensures
        exists|
            scales: Seq<(Scalar, Scalar)>,
            train_x: Seq<Vec<Scalar>>,
            val_x: Seq<Vec<Scalar>>,
        |
            scales.len() == task.features[0]@.len() && (forall|j: int|
                0 <= j < scales.len() ==> vectors::is_mean(
                    &task.vectors,
                    vectors::column(task.features, task.train, j),
                    (#[trigger] scales[j]).0,
                ) && vectors::is_deviation(
                    &task.vectors,
                    vectors::column(task.features, task.train, j),
                    scales[j].0,
                    scales[j].1,
                )) && #[trigger] all_scaled(
                &task.vectors,
                task.features,
                task.train,
                scales,
                train_x,
            ) && #[trigger] all_scaled(&task.vectors, task.features, task.val, scales, val_x)
                && task.classifies(train_x, val_x, k, accuracy),
{
    let (p, train_x, val_x) = choose|
        p: Preprocess,
        train_x: Seq<Vec<Scalar>>,
        val_x: Seq<Vec<Scalar>>,
    |
        p.is_fitted(&task.vectors, "standardize"@, task.features, task.train)
            && #[trigger] are_transformed(
            &task.vectors,
            p,
            task.features,
            task.train,
            train_x,
        ) && #[trigger] are_transformed(&task.vectors, p, task.features, task.val, val_x)
            && task.classifies(train_x, val_x, k, accuracy);
    let scales = p->Scaled_0@;
    assert forall|j: int| 0 <= j < scales.len() implies vectors::is_mean(
        &task.vectors,
        vectors::column(task.features, task.train, j),
        (#[trigger] scales[j]).0,
    ) && vectors::is_deviation(
        &task.vectors,
        vectors::column(task.features, task.train, j),
        scales[j].0,
        scales[j].1,
    ) by {
        assert(is_column_scale(
            &task.vectors,
            true,
            vectors::column(task.features, task.train, j),
            scales[j],
        ));
    }
    scaled_throughout(task, p, task.train, train_x);
    scaled_throughout(task, p, task.val, val_x);
}

proof fn scaled_throughout<V: Vectors>(
    task: PipelineTask<V>,
    p: Preprocess,
    at: Seq<usize>,
    out: Seq<Vec<Scalar>>,
)
    requires
        are_transformed(&task.vectors, p, task.features, at, out),
        p is Scaled,
    ensures
        all_scaled(&task.vectors, task.features, at, p->Scaled_0@, out),
{
    let scales = p->Scaled_0@;
    assert forall|x: int, j: int|
        0 <= x < at.len() && 0 <= j < task.features[at[x] as int]@.len() && j
            < scales.len() implies vectors::is_scaled(
        &task.vectors,
        task.features[at[x] as int]@[j],
        scales[j].0,
        scales[j].1,
        #[trigger] out[x]@[j],
    ) by {
        assert(p.is_applied(&task.vectors, task.features[at[x] as int]@, out[x]@));
    }
}

} // verus!
