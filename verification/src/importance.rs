//! Hyperparameter importance: a main-effect variance decomposition over completed trials.
//!
//! For each parameter, trials are grouped by its value (categories by category, numbers by
//! quantile bins), and the between-group variance of the objective is measured as a share of
//! the objective's variance among the trials in which the parameter is active. Shares are then
//! normalized across parameters.

use vstd::prelude::*;
use crate::evolution::finite_trials;
use crate::metrics::Direction;
use crate::names::NameMap;
use crate::order::ranking;
use crate::param::{Assignment, ParamModel, ParamValue};
use crate::reals::Reals;
use crate::scalar::Scalar;
use crate::text::precedes;
use crate::trial::TrialHistory;
#[allow(unused_imports)]
use crate::evolution;
#[allow(unused_imports)]
use crate::models;
#[allow(unused_imports)]
use crate::names;
#[allow(unused_imports)]
use crate::order;
#[allow(unused_imports)]
use crate::reals;
#[allow(unused_imports)]
use crate::text;

verus! {

/// Maximum number of quantile bins used to discretize a numeric parameter.
pub const MAX_BINS: usize = 10;

/// The estimated importance of one parameter for a study's objective.
#[derive(Debug)]
pub struct ParamImportance {
    /// The parameter name.
    pub param: String,
    /// Normalized main-effect importance.
    pub importance: Scalar,
}

/// The first rank of bin `b` when `n` ranks are split into `k` bins.
pub open spec fn bin_start(b: int, k: int, n: int) -> int {
    (b * n + k - 1) / k
}

/// The bins tile the ranks: they start at zero, end at `n`, and none is empty.
pub proof fn law_bins_tile_the_ranks(b: int, k: int, n: int)
    requires
        1 <= k <= n,
        0 <= b < k,
    ensures
        bin_start(0, k, n) == 0,
        bin_start(k, k, n) == n,
        0 <= bin_start(b, k, n) < bin_start(b + 1, k, n) <= n,
{
    let x = b * n + k - 1;
    assert((k - 1) / k == 0) by (nonlinear_arith)
        requires
            k >= 1,
    ;
    assert(0 * n + k - 1 == k - 1) by (nonlinear_arith);
    assert((k * n + k - 1) / k == n) by (nonlinear_arith)
        requires
            k >= 1,
    ;
    assert((b + 1) * n + k - 1 == x + n) by (nonlinear_arith)
        requires
            x == b * n + k - 1,
    ;
    assert(x / k < (x + n) / k) by (nonlinear_arith)
        requires
            1 <= k <= n,
            x >= 0,
    ;
    assert(b * n >= 0) by (nonlinear_arith)
        requires
            b >= 0,
            n >= 1,
    ;
    assert(x / k >= 0) by (nonlinear_arith)
        requires
            x >= 0,
            k >= 1,
    ;
    assert((b + 1) * n <= k * n) by (nonlinear_arith)
        requires
            b + 1 <= k,
            n >= 1,
    ;
    assert((x + n) / k <= (k * n + k - 1) / k) by (nonlinear_arith)
        requires
            x + n <= k * n + k - 1,
            k >= 1,
    ;
}

/// A rank belongs to bin `i * k / n`.
pub proof fn law_bin_of_rank(i: int, b: int, k: int, n: int)
    requires
        1 <= k <= n,
        0 <= i < n,
        0 <= b < k,
    ensures
        (bin_start(b, k, n) <= i < bin_start(b + 1, k, n)) == (i * k / n == b),
{
    ceiling(b * n, k, i);
    ceiling((b + 1) * n, k, i);
    let q = i * k / n;
    let r = (i * k) % n;
    assert(i * k == n * q + r && 0 <= r < n) by {
        vstd::arithmetic::div_mod::lemma_fundamental_div_mod(i * k, n);
        vstd::arithmetic::div_mod::lemma_mod_bound(i * k, n);
    }
    if q == b {
        assert(b * n == n * q && (b + 1) * n == n * q + n) by (nonlinear_arith)
            requires
                q == b,
        ;
    } else if q < b {
        assert(b * n >= n * q + n) by (nonlinear_arith)
            requires
                b >= q + 1,
                n >= 1,
        ;
    } else {
        assert((b + 1) * n <= n * q) by (nonlinear_arith)
            requires
                b + 1 <= q,
                n >= 1,
        ;
    }
}

/// The rounded-up quotient of `x` by `k` is at most `i` just if `x` is at most `i * k`.
proof fn ceiling(x: int, k: int, i: int)
    requires
        k >= 1,
    ensures
        ((x + k - 1) / k <= i) == (x <= i * k),
{
    let q = (x + k - 1) / k;
    let r = (x + k - 1) % k;
    assert(x + k - 1 == k * q + r && 0 <= r < k) by {
        vstd::arithmetic::div_mod::lemma_fundamental_div_mod(x + k - 1, k);
        vstd::arithmetic::div_mod::lemma_mod_bound(x + k - 1, k);
    }
    if q <= i {
        assert(k * q <= i * k) by (nonlinear_arith)
            requires
                q <= i,
                k >= 1,
        ;
    } else {
        assert(k * q >= i * k + k) by (nonlinear_arith)
            requires
                q >= i + 1,
                k >= 1,
        ;
    }
}

/// How many runs of equal numbers a sorted list has.
pub open spec fn levels(sorted: Seq<Scalar>) -> nat
    decreases sorted.len(),
{
    if sorted.len() < 2 {
        1
    } else {
        let n = sorted.len() as int;
        levels(sorted.drop_last()) + if sorted[n - 2].less(sorted[n - 1]) {
            1nat
        } else {
            0nat
        }
    }
}

/// How many bins are used for a sorted list of parameter values.
pub open spec fn bin_count(sorted: Seq<Scalar>) -> int {
    if levels(sorted) < 10 {
        levels(sorted) as int
    } else {
        10
    }
}

proof fn levels_are_few(sorted: Seq<Scalar>)
    ensures
        1 <= levels(sorted),
        sorted.len() >= 1 ==> levels(sorted) <= sorted.len(),
    decreases sorted.len(),
{
    if sorted.len() >= 2 {
        levels_are_few(sorted.drop_last());
    }
}

/// Whether `bins` are the quantile bins of `ys` by `xs`: with the values in ascending order of
/// `xs`, contiguous bins of near-equal size.
pub open spec fn is_binning(xs: Seq<Scalar>, ys: Seq<Scalar>, bins: Seq<Seq<Scalar>>) -> bool {
    exists|p: Seq<usize>| #[trigger]
        order::is_permutation(p, xs.len() as int) && (order::all_numbers(xs) ==> order::is_ranking(
            xs,
            Direction::Minimize,
            p,
        )) && binned(order::arranged(xs, p), order::arranged(ys, p), bins)
}

/// Whether `bins` cut a list of values, sorted by `xs`, into its quantile bins.
pub open spec fn binned(xs: Seq<Scalar>, ys: Seq<Scalar>, bins: Seq<Seq<Scalar>>) -> bool {
    let n = ys.len() as int;
    if n < 2 {
        bins == seq![ys]
    } else {
        let k = bin_count(xs);
        bins == Seq::new(
            k as nat,
            |b: int| ys.subrange(bin_start(b, k, n), bin_start(b + 1, k, n)),
        )
    }
}

/// The models of lists.
pub open spec fn lists(v: Seq<Vec<Scalar>>) -> Seq<Seq<Scalar>> {
    v.map_values(|x: Vec<Scalar>| x@)
}

/// Splits values into up to [`MAX_BINS`] contiguous quantile bins by the parameter value.
pub fn quantile_bins(xs: &Vec<Scalar>, ys: &Vec<Scalar>) -> (bins: Vec<Vec<Scalar>>)
    requires
        xs@.len() == ys@.len(),
    ensures
        is_binning(xs@, ys@, lists(bins@)),
{
    let p = ranking(xs, Direction::Minimize);
    let n = p.len();
    let mut sx: Vec<Scalar> = Vec::new();
    let mut sy: Vec<Scalar> = Vec::new();
    let mut i: usize = 0;
    let mut distinct: usize = 1;
    let ghost ax = order::arranged(xs@, p@);
    let ghost ay = order::arranged(ys@, p@);
    while i < n
        invariant
            i <= n,
            n == p@.len(),
            xs@.len() == ys@.len(),
            ax == order::arranged(xs@, p@),
            ay == order::arranged(ys@, p@),
            order::is_permutation(p@, xs@.len() as int),
            sx@ =~= ax.take(i as int),
            sy@ =~= ay.take(i as int),
            distinct == levels(sx@),
            distinct <= i || distinct == 1,
        decreases n - i,
    {
        let at = p[i];
        let ghost before = sx@;
        sx.push(xs[at]);
        sy.push(ys[at]);
        proof {
            assert(sx@.drop_last() =~= before);
            assert(sx@[i as int] == ax[i as int]);
            assert(sx@ =~= ax.take(i + 1));
            assert(sy@ =~= ay.take(i + 1));
        }
        if i > 0 && sx[i - 1].lt(&sx[i]) {
            distinct += 1;
        }
        i += 1;
    }
    proof {
        assert(ax.take(n as int) =~= ax);
        assert(ay.take(n as int) =~= ay);
    }
    let mut bins: Vec<Vec<Scalar>> = Vec::new();
    if n < 2 {
        bins.push(sy);
        proof {
            assert(lists(bins@) =~= seq![ay]);
            assert(binned(ax, ay, lists(bins@)));
        }
        return bins;
    }
    let k: usize = if distinct < MAX_BINS {
        distinct
    } else {
        MAX_BINS
    };
    proof {
        levels_are_few(ax);
    }
    let mut b: usize = 0;
    let mut from: usize = 0;
    proof {
        law_bins_tile_the_ranks(0, k as int, n as int);
    }
    while b < k
        invariant
            b <= k,
            1 <= k <= n,
            k <= 10,
            n == ay.len(),
            sy@ == ay,
            from == bin_start(b as int, k as int, n as int),
            from <= n,
            bins@.len() == b,
            forall|j: int|
                0 <= j < b ==> (#[trigger] bins@[j])@ == ay.subrange(
                    bin_start(j, k as int, n as int),
                    bin_start(j + 1, k as int, n as int),
                ),
        decreases k - b,
    {
        proof {
            law_bins_tile_the_ranks(b as int, k as int, n as int);
            let (c, m) = (b as int + 1, n as int);
            assert(0 <= c * m <= 10 * m) by (nonlinear_arith)
                requires
                    0 <= c <= 10,
                    m >= 0,
            ;
        }
        let wide = ((b as u128 + 1) * (n as u128) + (k as u128) - 1) / (k as u128);
        let to = wide as usize;
        let mut bin: Vec<Scalar> = Vec::new();
        let mut j = from;
        while j < to
            invariant
                from <= j <= to,
                to <= sy@.len(),
                bin@ =~= sy@.subrange(from as int, j as int),
            decreases to - j,
        {
            bin.push(sy[j]);
            j += 1;
        }
        bins.push(bin);
        from = to;
        b += 1;
    }
    proof {
        assert(lists(bins@) =~= Seq::new(
            bin_count(ax) as nat,
            |b: int|
                ay.subrange(
                    bin_start(b, bin_count(ax), n as int),
                    bin_start(b + 1, bin_count(ax), n as int),
                ),
        ));
        assert(binned(ax, ay, lists(bins@)));
    }
    bins
}

/// The text by which a value is grouped when the first one is a category or a boolean.
pub open spec fn group_key(first: ParamModel, v: ParamModel) -> Seq<char> {
    match (first, v) {
        (ParamModel::Categorical(_), ParamModel::Categorical(s)) => s,
        (ParamModel::Bool(_), ParamModel::Bool(b)) => if b {
            "true"@
        } else {
            "false"@
        },
        _ => ""@,
    }
}

/// Selects the values whose parameter has a given group key.
pub open spec fn keyed(first: ParamModel, key: Seq<char>) -> spec_fn((ParamModel, Scalar)) -> Option<
    Scalar,
> {
    |o: (ParamModel, Scalar)|
        if group_key(first, o.0) == key {
            Some(o.1)
        } else {
            None
        }
}

fn key_text(first: &ParamValue, v: &ParamValue) -> (s: String)
    ensures
        s@ == group_key(first@, v@),
{
    match (first, v) {
        (ParamValue::Categorical(_), ParamValue::Categorical(s)) => s.clone(),
        (ParamValue::Bool(_), ParamValue::Bool(b)) => if *b {
            "true".to_owned()
        } else {
            "false".to_owned()
        },
        _ => "".to_owned(),
    }
}

/// The observations of a parameter with the objective's values.
pub open spec fn paired(values: Seq<ParamModel>, ys: Seq<Scalar>) -> Seq<(ParamModel, Scalar)> {
    Seq::new(values.len(), |i: int| (values[i], ys[i]))
}

/// Whether `groups` hold the objective's values by the group key of the parameter's, one group
/// for each key that occurs, in the order of the keys.
pub open spec fn is_grouping(
    obs: Seq<(ParamModel, Scalar)>,
    groups: Seq<Seq<Scalar>>,
) -> bool {
    exists|keys: Seq<Seq<char>>| #[trigger] grouped_by(obs, keys, groups)
}

/// Whether some observation has that group key.
pub open spec fn key_occurs(
    obs: Seq<(ParamModel, Scalar)>,
    first: ParamModel,
    key: Seq<char>,
) -> bool {
    exists|o: int| 0 <= o < obs.len() && #[trigger] group_key(first, obs[o].0) == key
}

/// Whether `groups` hold the values of the sorted `keys`.
pub open spec fn grouped_by(
    obs: Seq<(ParamModel, Scalar)>,
    keys: Seq<Seq<char>>,
    groups: Seq<Seq<Scalar>>,
) -> bool {
    let first = obs[0].0;
    &&& forall|i: int, j: int|
        0 <= i < j < keys.len() ==> text::text_less(#[trigger] keys[i], #[trigger] keys[j])
    &&& forall|i: int| 0 <= i < obs.len() ==> keys.contains(#[trigger] group_key(first, obs[i].0))
    &&& forall|i: int| 0 <= i < keys.len() ==> key_occurs(obs, first, #[trigger] keys[i])
    &&& groups == Seq::new(keys.len(), |i: int| models::pick(obs, keyed(first, keys[i])))
}

/// Groups the objective's values by the group key of the parameter's.
pub fn group_by_key(values: &Vec<ParamValue>, ys: &Vec<Scalar>) -> (groups: Vec<Vec<Scalar>>)
    requires
        values@.len() == ys@.len(),
        values@.len() > 0,
    ensures
        is_grouping(paired(models::of(values@), ys@), lists(groups@)),
{
    let ghost obs = paired(models::of(values@), ys@);
    let ghost first = values@[0]@;
    let mut found: NameMap<bool> = NameMap::new();
    let mut i: usize = 0;
    while i < values.len()
        invariant
            i <= values@.len(),
            values@.len() == ys@.len(),
            values@.len() > 0,
            obs == paired(models::of(values@), ys@),
            first == values@[0]@,
            forall|k: Seq<char>| #[trigger]
                found@.contains_key(k) <==> exists|o: int|
                    0 <= o < i && #[trigger] group_key(first, obs[o].0) == k,
        decreases values@.len() - i,
    {
        let key = key_text(&values[0], &values[i]);
        let ghost before = found@;
        found.insert(key.as_str(), true);
        proof {
            assert(obs[i as int].0 == values@[i as int]@);
            assert(group_key(first, obs[i as int].0) == key@);
            assert forall|k: Seq<char>| #[trigger]
                found@.contains_key(k) <==> exists|o: int|
                    0 <= o < i + 1 && #[trigger] group_key(first, obs[o].0) == k by {
                if before.contains_key(k) {
                    let o = choose|o: int| 0 <= o < i && #[trigger] group_key(first, obs[o].0) == k;
                    assert(group_key(first, obs[o].0) == k);
                }
            }
        }
        i += 1;
    }
    let pairs = found.iter();
    let ghost keys = found.names();
    let mut groups: Vec<Vec<Scalar>> = Vec::new();
    let mut g: usize = 0;
    while g < pairs.len()
        invariant
            g <= pairs@.len(),
            pairs@.len() == keys.len(),
            values@.len() == ys@.len(),
            values@.len() > 0,
            obs == paired(models::of(values@), ys@),
            first == values@[0]@,
            keys == found.names(),
            forall|k: int| 0 <= k < pairs@.len() ==> (#[trigger] pairs@[k]).0@ == keys[k],
            groups@.len() == g,
            forall|k: int|
                0 <= k < g ==> (#[trigger] groups@[k])@ == models::pick(obs, keyed(first, keys[k])),
        decreases pairs@.len() - g,
    {
        let key = pairs[g].0.as_str();
        let ghost f = keyed(first, keys[g as int]);
        let mut group: Vec<Scalar> = Vec::new();
        let mut j: usize = 0;
        proof {
            assert(obs.take(0).len() == 0);
            assert(key@ == keys[g as int]);
        }
        while j < values.len()
            invariant
                j <= values@.len(),
                values@.len() == ys@.len(),
                values@.len() > 0,
                obs == paired(models::of(values@), ys@),
                first == values@[0]@,
                f == keyed(first, key@),
                group@ == models::pick(obs.take(j as int), f),
            decreases values@.len() - j,
        {
            proof {
                models::pick_step(obs, j as int, f);
                assert(obs[j as int] == (values@[j as int]@, ys@[j as int]));
            }
            let k = key_text(&values[0], &values[j]);
            if crate::text::same_text(k.as_str(), key) {
                group.push(ys[j]);
            }
            j += 1;
        }
        proof {
            models::pick_whole(obs, f);
        }
        groups.push(group);
        g += 1;
    }
    proof {
        let ps = found.pairs();
        assert forall|i: int, j: int| 0 <= i < j < keys.len() implies text::text_less(
            #[trigger] keys[i],
            #[trigger] keys[j],
        ) by {
            assert(text::text_less(ps[i].0@, ps[j].0@));
        }
        assert forall|i: int| 0 <= i < obs.len() implies keys.contains(
            #[trigger] group_key(first, obs[i].0),
        ) by {
            let k = group_key(first, obs[i].0);
            assert(found@.contains_key(k));
            let x = choose|x: int| 0 <= x < ps.len() && #[trigger] ps[x].0@ == k;
            assert(keys[x] == k);
        }
        assert forall|i: int| 0 <= i < keys.len() implies key_occurs(
            obs,
            first,
            #[trigger] keys[i],
        ) by {
            assert(ps[i].0@ == keys[i]);
            assert(found@.contains_key(keys[i]));
        }
        assert(obs[0].0 == first);
        assert(lists(groups@) =~= Seq::new(
            keys.len(),
            |i: int| models::pick(obs, keyed(first, keys[i])),
        ));
        assert(grouped_by(obs, keys, lists(groups@)));
    }
    groups
}

/// Selects the values that can be taken for numbers.
pub open spec fn if_numeric() -> spec_fn((ParamModel, Scalar)) -> Option<(ParamModel, Scalar)> {
    |o: (ParamModel, Scalar)|
        if o.0 is Categorical {
            None
        } else {
            Some(o)
        }
}

/// Whether `x` is the number that a value is taken for: a float is itself, an integer and a
/// boolean are converted.
pub open spec fn taken_for<R: Reals>(reals: &R, v: ParamModel, x: Scalar) -> bool {
    match v {
        ParamModel::Float(y) => x == y,
        ParamModel::Int(i) => reals::is_of_int(reals, i, x),
        ParamModel::Bool(b) => reals::is_of_int(
            reals,
            if b {
                1
            } else {
                0
            },
            x,
        ),
        ParamModel::Categorical(_) => false,
    }
}

/// Whether `xs` are the numbers that observations are taken for.
pub open spec fn all_taken_for<R: Reals>(
    reals: &R,
    obs: Seq<(ParamModel, Scalar)>,
    xs: Seq<Scalar>,
) -> bool {
    &&& xs.len() == obs.len()
    &&& forall|i: int| 0 <= i < obs.len() ==> taken_for(reals, obs[i].0, #[trigger] xs[i])
}

/// Whether `groups` hold the objective's values by the parameter's: categories and booleans by
/// their value, numbers by quantile bins.
pub open spec fn are_groups<R: Reals>(
    reals: &R,
    obs: Seq<(ParamModel, Scalar)>,
    groups: Seq<Seq<Scalar>>,
) -> bool {
    if obs[0].0 is Categorical || obs[0].0 is Bool {
        is_grouping(obs, groups)
    } else {
        let numeric = models::pick(obs, if_numeric());
        exists|xs: Seq<Scalar>| #[trigger]
            all_taken_for(reals, numeric, xs) && is_binning(xs, values_in(numeric), groups)
    }
}

/// The objective's values in observations.
pub open spec fn values_in(obs: Seq<(ParamModel, Scalar)>) -> Seq<Scalar> {
    obs.map_values(|o: (ParamModel, Scalar)| o.1)
}

/// Whether `share` is the raw main-effect share of a parameter with these observations: the
/// variance between its groups as a share of the whole, kept between zero and one; zero for
/// fewer than two observations and where the objective does not vary.
pub open spec fn is_share<R: Reals>(
    reals: &R,
    obs: Seq<(ParamModel, Scalar)>,
    share: Scalar,
) -> bool {
    if obs.len() < 2 {
        share.pattern() == 0
    } else {
        exists|total: Scalar| #[trigger]
            reals::is_variance(reals, values_in(obs), total) && if still(total) {
                share.pattern() == 0
            } else {
                share_of(reals, obs, total, share)
            }
    }
}

/// Whether a variance is so small that nothing varies.
pub open spec fn still(total: Scalar) -> bool {
    !total.nan() && total.key() <= crate::distribution::SPACING
}

/// Whether `share` is what lies between the groups of observations of variance `total`.
pub open spec fn share_of<R: Reals>(
    reals: &R,
    obs: Seq<(ParamModel, Scalar)>,
    total: Scalar,
    share: Scalar,
) -> bool {
    exists|groups: Seq<Seq<Scalar>>, between: Scalar, ratio: Scalar|
        are_groups(reals, obs, groups) && #[trigger] reals::is_between(reals, groups, between)
            && #[trigger] reals::is_quotient(reals, between, total, ratio) && share
            == ratio.clamped(Scalar { bits: 0 }, Scalar { bits: crate::scalar::ONE })
}

/// Groups the objective's values by the parameter's: categories and booleans by their value,
/// numbers by quantile bins.
fn group_objective<R: Reals>(values: &Vec<ParamValue>, ys: &Vec<Scalar>, reals: &R) -> (groups:
    Vec<Vec<Scalar>>)
    requires
        values@.len() == ys@.len(),
        values@.len() > 0,
    ensures
        are_groups(reals, paired(models::of(values@), ys@), lists(groups@)),
{
    let ghost obs = paired(models::of(values@), ys@);
    let ghost f = if_numeric();
    proof {
        assert(obs[0].0 == values@[0]@);
    }
    match &values[0] {
        ParamValue::Categorical(_) => group_by_key(values, ys),
        ParamValue::Bool(_) => group_by_key(values, ys),
        _ => {
            let mut xs: Vec<Scalar> = Vec::new();
            let mut kept: Vec<Scalar> = Vec::new();
            let mut i: usize = 0;
            proof {
                assert(obs.take(0).len() == 0);
            }
            while i < values.len()
                invariant
                    i <= values@.len(),
                    values@.len() == ys@.len(),
                    obs == paired(models::of(values@), ys@),
                    f == if_numeric(),
                    xs@.len() == kept@.len(),
                    all_taken_for(reals, models::pick(obs.take(i as int), f), xs@),
                    kept@ =~= values_in(models::pick(obs.take(i as int), f)),
                decreases values@.len() - i,
            {
                let ghost head = models::pick(obs.take(i as int), f);
                let ghost before = xs@;
                proof {
                    models::pick_step(obs, i as int, f);
                    assert(obs[i as int] == (values@[i as int]@, ys@[i as int]));
                }
                let x = match &values[i] {
                    ParamValue::Float(x) => Some(*x),
                    ParamValue::Int(x) => Some(reals.of_int(*x)),
                    ParamValue::Bool(b) => Some(
                        reals.of_int(
                            if *b {
                                1
                            } else {
                                0
                            },
                        ),
                    ),
                    ParamValue::Categorical(_) => None,
                };
                if let Some(x) = x {
                    xs.push(x);
                    kept.push(ys[i]);
                    proof {
                        let more = models::pick(obs.take(i + 1), f);
                        assert(more =~= head.push(obs[i as int]));
                        assert(taken_for(reals, obs[i as int].0, x));
                        assert forall|k: int| 0 <= k < more.len() implies taken_for(
                            reals,
                            more[k].0,
                            #[trigger] xs@[k],
                        ) by {
                            if k < head.len() {
                                assert(xs@[k] == before[k]);
                            }
                        }
                    }
                }
                i += 1;
            }
            proof {
                models::pick_whole(obs, f);
            }
            let groups = quantile_bins(&xs, &kept);
            proof {
                assert(all_taken_for(reals, models::pick(obs, f), xs@));
            }
            groups
        },
    }
}

/// The trials that count: completed, with a finite value.
pub open spec fn observations(history: crate::trial::HistoryModel, objective: Seq<char>) -> Seq<
    (Assignment, Scalar),
> {
    models::pick(history, evolution::fit_parent(objective))
}

/// Whether some trial that counts has a value for the parameter.
pub open spec fn occurs(data: Seq<(Assignment, Scalar)>, name: Seq<char>) -> bool {
    exists|i: int| 0 <= i < data.len() && (#[trigger] data[i]).0.contains_key(name)
}

/// Selects the trials in which a parameter is active.
pub open spec fn active_in(name: Seq<char>) -> spec_fn((Assignment, Scalar)) -> Option<
    (ParamModel, Scalar),
> {
    |o: (Assignment, Scalar)|
        if o.0.contains_key(name) {
            Some((o.0[name], o.1))
        } else {
            None
        }
}

/// Whether `a` is listed before `b`: it is more important, or as important and first by name.
pub open spec fn listed_before(a: ParamImportance, b: ParamImportance) -> bool {
    b.importance.key() < a.importance.key() || (b.importance.key() == a.importance.key()
        && text::text_less(a.param@, b.param@))
}

/// Whether none of the importances is a NaN.
pub open spec fn all_measured(items: Seq<ParamImportance>) -> bool {
    forall|i: int| 0 <= i < items.len() ==> !(#[trigger] items[i]).importance.nan()
}

/// Whether a list is in order, if all of it can be compared.
pub open spec fn in_order(items: Seq<ParamImportance>) -> bool {
    all_measured(items) ==> forall|i: int, j: int|
        0 <= i < j < items.len() ==> listed_before(#[trigger] items[i], #[trigger] items[j])
}

/// The names of a list.
pub open spec fn params_of(items: Seq<ParamImportance>) -> Seq<Seq<char>> {
    items.map_values(|p: ParamImportance| p.param@)
}

/// Whether parameters seen in fewer than two trials have no importance.
pub open spec fn rare_are_zero(
    data: Seq<(Assignment, Scalar)>,
    items: Seq<ParamImportance>,
) -> bool {
    forall|i: int|
        0 <= i < items.len() && models::pick(data, active_in((#[trigger] items[i]).param@)).len()
            < 2 ==> items[i].importance.pattern() == 0
}

/// Whether a list names each occurring parameter once, most important first. Importances that
/// are not numbers leave the order open. A parameter seen in fewer than two trials has none.
pub open spec fn is_profile(
    data: Seq<(Assignment, Scalar)>,
    items: Seq<ParamImportance>,
) -> bool {
    &&& forall|name: Seq<char>| #[trigger]
        params_of(items).contains(name) <==> occurs(data, name)
    &&& params_of(items).no_duplicates()
    &&& in_order(items)
    &&& rare_are_zero(data, items)
}

/// Whether `raws` are the raw shares of parameters.
pub open spec fn are_shares<R: Reals>(
    reals: &R,
    data: Seq<(Assignment, Scalar)>,
    names: Seq<Seq<char>>,
    raws: Seq<Scalar>,
) -> bool {
    &&& raws.len() == names.len()
    &&& forall|k: int|
        0 <= k < raws.len() ==> is_share(
            reals,
            models::pick(data, active_in(names[k])),
            #[trigger] raws[k],
        )
}

/// Whether `v` is a raw share as part of the total, zero where there is no such part.
pub open spec fn is_weight<R: Reals>(reals: &R, raw: Scalar, total: Scalar, v: Scalar) -> bool {
    if !total.nan() && total.key() > 0 && raw.pattern() != 0 {
        reals::is_quotient(reals, raw, total, v)
    } else {
        v.pattern() == 0
    }
}

/// Whether an item weighs the raw share of the parameter that it names.
pub open spec fn weighs<R: Reals>(
    reals: &R,
    names: Seq<Seq<char>>,
    raws: Seq<Scalar>,
    total: Scalar,
    item: ParamImportance,
) -> bool {
    exists|k: int|
        0 <= k < names.len() && #[trigger] names[k] == item.param@ && is_weight(
            reals,
            raws[k],
            total,
            item.importance,
        )
}

/// Whether items weigh the raw shares of the occurring parameters by their sum.
pub open spec fn are_weighed<R: Reals>(
    reals: &R,
    data: Seq<(Assignment, Scalar)>,
    items: Seq<ParamImportance>,
) -> bool {
    exists|names: Seq<Seq<char>>, raws: Seq<Scalar>, total: Scalar| #[trigger]
        are_shares(reals, data, names, raws) && #[trigger] reals::is_sum(reals, raws, total)
            && are_names(data, names) && (forall|i: int|
            0 <= i < items.len() ==> weighs(reals, names, raws, total, #[trigger] items[i]))
}

/// Whether `items` profile the trials that count: nothing where there are fewer than two of them
/// or the objective does not vary over them, and otherwise every occurring parameter with its
/// share.
pub open spec fn is_importance<R: Reals>(
    reals: &R,
    data: Seq<(Assignment, Scalar)>,
    items: Seq<ParamImportance>,
) -> bool {
    if data.len() < 2 {
        items.len() == 0
    } else {
        exists|total: Scalar| #[trigger]
            reals::is_variance(reals, evolution::scores(data), total) && if still(total) {
                items.len() == 0
            } else {
                is_profile(data, items) && are_weighed(reals, data, items)
            }
    }
}

/// Whether `names` are the names that occur in trials, none twice.
pub open spec fn are_names(data: Seq<(Assignment, Scalar)>, names: Seq<Seq<char>>) -> bool {
    &&& names.no_duplicates()
    &&& forall|name: Seq<char>| #[trigger] names.contains(name) <==> occurs(data, name)
}

/// The names that occur in trials, in first-seen order.
fn seen_names(history: &TrialHistory, at: &Vec<usize>, Ghost(data): Ghost<
    Seq<(Assignment, Scalar)>,
>) -> (r: Vec<String>)
    requires
        data.len() == at@.len(),
        forall|k: int|
            0 <= k < at@.len() ==> (#[trigger] at@[k]) < history@.len() && data[k].0
                == history@[at@[k] as int].params,
    ensures
        forall|i: int| 0 <= i < r@.len() ==> occurs(data, (#[trigger] r@[i])@),
        forall|name: Seq<char>| #[trigger] occurs(data, name) ==> models::of(r@).contains(name),
        forall|i: int, j: int|
            0 <= i < j < r@.len() ==> (#[trigger] r@[i])@ != (#[trigger] r@[j])@,
{
    let records = history.records();
    let mut names: Vec<String> = Vec::new();
    let mut t: usize = 0;
    while t < at.len()
        invariant
            t <= at@.len(),
            data.len() == at@.len(),
            records@.len() == history@.len(),
            forall|k: int|
                0 <= k < records@.len() ==> (#[trigger] records@[k])@ == history@[k],
            forall|k: int|
                0 <= k < at@.len() ==> (#[trigger] at@[k]) < history@.len() && data[k].0
                    == history@[at@[k] as int].params,
            forall|i: int| 0 <= i < names@.len() ==> occurs(data, (#[trigger] names@[i])@),
            forall|k: int, name: Seq<char>|
                0 <= k < t && #[trigger] data[k].0.contains_key(name) ==> models::of(
                    names@,
                ).contains(name),
            forall|i: int, j: int|
                0 <= i < j < names@.len() ==> (#[trigger] names@[i])@ != (#[trigger] names@[j])@,
        decreases at@.len() - t,
    {
        proof {
            assert(records@[at@[t as int] as int]@ == history@[at@[t as int] as int]);
        }
        let params = &records[at[t]].params;
        let pairs = params.iter();
        let ghost ps = params.pairs();
        let ghost held = names::entries_map(ps);
        let mut j: usize = 0;
        while j < pairs.len()
            invariant
                j <= pairs@.len(),
                pairs@.len() == ps.len(),
                t < data.len(),
                forall|k: int|
                    0 <= k < pairs@.len() ==> *(#[trigger] pairs@[k]).0 == ps[k].0,
                held == names::entries_map(ps),
                data[t as int].0 == held.map_values(|v: ParamValue| v@),
                forall|i: int| 0 <= i < names@.len() ==> occurs(data, (#[trigger] names@[i])@),
                forall|k: int, name: Seq<char>|
                    0 <= k < t && #[trigger] data[k].0.contains_key(name) ==> models::of(
                        names@,
                    ).contains(name),
                forall|k: int|
                    0 <= k < j ==> models::of(names@).contains((#[trigger] ps[k]).0@),
                forall|x: int, y: int|
                    0 <= x < y < names@.len() ==> (#[trigger] names@[x])@ != (
                    #[trigger] names@[y])@,
            decreases pairs@.len() - j,
        {
            let name = pairs[j].0;
            let ghost before = names@;
            proof {
                assert(*pairs@[j as int].0 == ps[j as int].0);
                assert(held.contains_key(name@));
                assert(data[t as int].0.contains_key(name@));
                assert(occurs(data, name@));
            }
            if !crate::distribution::contains_text(&names, name.as_str()) {
                names.push(name.clone());
                proof {
                    assert(models::of(names@) =~= models::of(before).push(name@));
                    assert forall|x: Seq<char>| models::of(before).contains(x) implies models::of(
                        names@,
                    ).contains(x) by {
                        let i = models::of(before).index_of(x);
                        assert(models::of(names@)[i] == x);
                    }
                    assert(models::of(names@)[before.len() as int] == name@);
                    assert forall|x: int, y: int| 0 <= x < y < names@.len() implies (
                    #[trigger] names@[x])@ != (#[trigger] names@[y])@ by {
                        if y == before.len() {
                            assert(models::of(before)[x] == names@[x]@);
                        }
                    }
                }
            }
            j += 1;
        }
        proof {
            assert forall|k: int, name: Seq<char>|
                0 <= k < t + 1 && #[trigger] data[k].0.contains_key(name) implies models::of(
                names@,
            ).contains(name) by {
                if k == t {
                    assert(held.contains_key(name));
                    let x = choose|x: int| 0 <= x < ps.len() && #[trigger] ps[x].0@ == name;
                    assert(models::of(names@).contains(ps[x].0@));
                }
            }
        }
        t += 1;
    }
    names
}

/// The raw main-effect share of a parameter; zero when it is active in fewer than two trials or
/// the objective does not vary there.
fn raw_share<R: Reals>(
    history: &TrialHistory,
    at: &Vec<usize>,
    ys: &Vec<Scalar>,
    name: &str,
    reals: &R,
    Ghost(data): Ghost<Seq<(Assignment, Scalar)>>,
) -> (share: Scalar)
    requires
        data.len() == at@.len(),
        ys@.len() == at@.len(),
        forall|k: int|
            0 <= k < at@.len() ==> (#[trigger] at@[k]) < history@.len() && data[k] == (
                history@[at@[k] as int].params,
                ys@[k],
            ),
    ensures
        is_share(reals, models::pick(data, active_in(name@)), share),
{
    let records = history.records();
    let mut values: Vec<ParamValue> = Vec::new();
    let mut subset: Vec<Scalar> = Vec::new();
    let ghost f = active_in(name@);
    let mut t: usize = 0;
    proof {
        assert(data.take(0).len() == 0);
    }
    while t < at.len()
        invariant
            t <= at@.len(),
            data.len() == at@.len(),
            ys@.len() == at@.len(),
            f == active_in(name@),
            records@.len() == history@.len(),
            forall|k: int|
                0 <= k < records@.len() ==> (#[trigger] records@[k])@ == history@[k],
            forall|k: int|
                0 <= k < at@.len() ==> (#[trigger] at@[k]) < history@.len() && data[k] == (
                    history@[at@[k] as int].params,
                    ys@[k],
                ),
            subset@.len() == models::pick(data.take(t as int), f).len(),
            values@.len() == subset@.len(),
            paired(models::of(values@), subset@) =~= models::pick(data.take(t as int), f),
        decreases at@.len() - t,
    {
        let ghost head = paired(models::of(values@), subset@);
        proof {
            models::pick_step(data, t as int, f);
            assert(records@[at@[t as int] as int]@ == history@[at@[t as int] as int]);
        }
        if let Some(v) = records[at[t]].params.get(name) {
            values.push(v.clone());
            subset.push(ys[t]);
            proof {
                assert(paired(models::of(values@), subset@) =~= head.push((v@, ys@[t as int])));
            }
        }
        t += 1;
    }
    let ghost obs = models::pick(data, f);
    proof {
        models::pick_whole(data, f);
        assert(paired(models::of(values@), subset@) =~= obs);
        assert(subset@ =~= values_in(obs));
    }
    if subset.len() < 2 {
        return Scalar::zero();
    }
    let total = reals.variance(&subset);
    proof {
        assert(reals::is_variance(reals, values_in(obs), total));
    }
    if total.le(&Scalar::from_bits(crate::distribution::SPACING)) {
        return Scalar::zero();
    }
    let groups = group_objective(&values, &subset, reals);
    let between = reals.between(&groups);
    let ratio = reals.quotient(between, total);
    let share = ratio.clamp(&Scalar::zero(), &Scalar::from_bits(crate::scalar::ONE));
    proof {
        assert(are_groups(reals, obs, lists(groups@)));
        assert(reals::is_between(reals, lists(groups@), between));
        assert(reals::is_quotient(reals, between, total, ratio));
        assert(share_of(reals, obs, total, share));
    }
    share
}

/// Inserts an item into a list in its place.
fn place(items: &mut Vec<ParamImportance>, item: ParamImportance)
    requires
        in_order(old(items)@),
        !params_of(old(items)@).contains(item.param@),
    ensures
        exists|at: int|
            0 <= at <= old(items)@.len() && final(items)@ == #[trigger] old(items)@.insert(at, item),
        in_order(final(items)@),
{
    let ghost before = items@;
    let mut at: usize = items.len();
    while at > 0 && (items[at - 1].importance.lt(&item.importance) || (!item.importance.lt(
        &items[at - 1].importance,
    ) && precedes(item.param.as_str(), items[at - 1].param.as_str())))
        invariant
            items@ == before,
            at <= items@.len(),
            all_measured(items@) && !item.importance.nan() ==> forall|k: int|
                at <= k < items@.len() ==> listed_before(item, #[trigger] items@[k]),
        decreases at,
    {
        at -= 1;
    }
    let ghost it = item;
    items.insert(at, item);
    proof {
        let after = items@;
        assert(after == before.insert(at as int, it));
        if all_measured(after) {
            assert forall|k: int| 0 <= k < before.len() implies !(
            #[trigger] before[k]).importance.nan() by {
                let x = if k < at {
                    k
                } else {
                    k + 1
                };
                assert(after[x] == before[k]);
            }
            assert(after[at as int] == it);
            assert(!it.importance.nan());
            if at > 0 {
                let last = before[at - 1];
                text::text_less_total(last.param@, it.param@);
                assert(params_of(before)[at - 1] == last.param@);
                assert(listed_before(last, it));
            }
            assert forall|i: int, j: int| 0 <= i < j < after.len() implies listed_before(
                #[trigger] after[i],
                #[trigger] after[j],
            ) by {
                let x = if i < at {
                    i
                } else {
                    i - 1
                };
                let y = if j < at {
                    j
                } else {
                    j - 1
                };
                if i == at {
                    assert(after[j] == before[y]);
                } else if j == at {
                    assert(after[i] == before[x]);
                    if x < at - 1 {
                        assert(listed_before(before[x], before[at - 1]));
                        listing_is_transitive(before[x], before[at - 1], it);
                    }
                } else {
                    assert(after[i] == before[x]);
                    assert(after[j] == before[y]);
                }
            }
        }
    }
}

proof fn listing_is_transitive(a: ParamImportance, b: ParamImportance, c: ParamImportance)
    requires
        listed_before(a, b),
        listed_before(b, c),
    ensures
        listed_before(a, c),
{
    if a.importance.key() == b.importance.key() && b.importance.key() == c.importance.key() {
        text::text_less_transitive(a.param@, b.param@, c.param@);
    }
}

/// Compute per-parameter importances for `objective` over the completed trials in `history`,
/// sorted most important first. Empty when there are fewer than two completed trials with a
/// finite value, or when the objective does not vary over them: there is nothing to attribute.
pub fn importance<R: Reals>(history: &TrialHistory, objective: &str, reals: &R) -> (out: Vec<
    ParamImportance,
>)
    ensures
        is_importance(reals, observations(history@, objective@), out@),
{
    let (at, ys) = finite_trials(history, objective);
    let ghost data = observations(history@, objective@);
    let mut out: Vec<ParamImportance> = Vec::new();
    if at.len() < 2 {
        return out;
    }
    let variance = reals.variance(&ys);
    proof {
        assert forall|k: int| 0 <= k < ys@.len() implies ys@[k] == evolution::scores(data)[k] by {
            assert(at@[k] < history@.len());
        }
        assert(ys@ =~= evolution::scores(data));
        assert(reals::is_variance(reals, evolution::scores(data), variance));
    }
    if variance.le(&Scalar::from_bits(crate::distribution::SPACING)) {
        return out;
    }
    let names = seen_names(history, &at, Ghost(data));
    let mut raw: Vec<Scalar> = Vec::new();
    let mut i: usize = 0;
    while i < names.len()
        invariant
            i <= names@.len(),
            data.len() == at@.len(),
            ys@.len() == at@.len(),
            forall|k: int|
                0 <= k < at@.len() ==> (#[trigger] at@[k]) < history@.len() && data[k] == (
                    history@[at@[k] as int].params,
                    ys@[k],
                ),
            raw@.len() == i,
            forall|k: int|
                0 <= k < i && models::pick(data, active_in((#[trigger] names@[k])@)).len() < 2
                    ==> raw@[k].pattern() == 0,
            forall|k: int|
                0 <= k < i ==> is_share(
                    reals,
                    models::pick(data, active_in(names@[k]@)),
                    #[trigger] raw@[k],
                ),
        decreases names@.len() - i,
    {
        let share = raw_share(history, &at, &ys, names[i].as_str(), reals, Ghost(data));
        raw.push(share);
        i += 1;
    }
    let total = reals.sum(&raw);
    let ghost listed = models::of(names@);
    proof {
        assert(reals::is_sum(reals, raw@, total));
        assert(are_shares(reals, data, listed, raw@));
        assert forall|x: int, y: int|
            0 <= x < listed.len() && 0 <= y < listed.len() && x != y implies listed[x]
            != listed[y] by {
            if x < y {
                assert(names@[x]@ != names@[y]@);
            } else {
                assert(names@[y]@ != names@[x]@);
            }
        }
        assert forall|name: Seq<char>| #[trigger] listed.contains(name) implies occurs(
            data,
            name,
        ) by {
            let x = listed.index_of(name);
            assert(names@[x]@ == name);
        }
        assert(are_names(data, listed));
    }
    let positive = Scalar::zero().lt(&total);
    let mut j: usize = 0;
    while j < names.len()
        invariant
            j <= names@.len(),
            raw@.len() == names@.len(),
            forall|x: int, y: int|
                0 <= x < y < names@.len() ==> (#[trigger] names@[x])@ != (#[trigger] names@[y])@,
            forall|k: int|
                0 <= k < names@.len() && models::pick(
                    data,
                    active_in((#[trigger] names@[k])@),
                ).len() < 2 ==> raw@[k].pattern() == 0,
            forall|name: Seq<char>| #[trigger]
                params_of(out@).contains(name) <==> models::of(names@).take(j as int).contains(
                    name,
                ),
            params_of(out@).no_duplicates(),
            in_order(out@),
            rare_are_zero(data, out@),
            listed == models::of(names@),
            positive == (!total.nan() && total.key() > 0),
            forall|i: int|
                0 <= i < out@.len() ==> weighs(reals, listed, raw@, total, #[trigger] out@[i]),
        decreases names@.len() - j,
    {
        let value = if positive && raw[j].to_bits() != 0 {
            reals.quotient(raw[j], total)
        } else {
            Scalar::zero()
        };
        let ghost before = out@;
        let item = ParamImportance { param: names[j].clone(), importance: value };
        let ghost it = item;
        let ghost nm = models::of(names@);
        proof {
            assert(it.param@ == nm[j as int]);
            if params_of(before).contains(it.param@) {
                assert(nm.take(j as int).contains(it.param@));
                let x = nm.take(j as int).index_of(it.param@);
                assert(names@[x]@ != names@[j as int]@);
            }
        }
        place(&mut out, item);
        proof {
            let at = choose|at: int|
                0 <= at <= before.len() && out@ == #[trigger] before.insert(at, it);
            placed(before, at, it);
            assert(nm.take(j + 1) =~= nm.take(j as int).push(it.param@));
            assert forall|name: Seq<char>| #[trigger] params_of(out@).contains(name) <==> nm.take(
                j + 1,
            ).contains(name) by {
                pushed(nm.take(j as int), it.param@, name);
                assert(params_of(before).contains(name) == nm.take(j as int).contains(name));
            }
            assert(models::pick(data, active_in(names@[j as int]@)).len() < 2
                ==> raw@[j as int].pattern() == 0);
            zero_placed(data, before, at, it);
            assert(listed[j as int] == it.param@);
            assert(is_weight(reals, raw@[j as int], total, it.importance));
            assert(weighs(reals, listed, raw@, total, it));
            assert forall|i: int| 0 <= i < out@.len() implies weighs(
                reals,
                listed,
                raw@,
                total,
                #[trigger] out@[i],
            ) by {
                if i < at {
                    assert(out@[i] == before[i]);
                } else if i > at {
                    assert(out@[i] == before[i - 1]);
                }
            }
        }
        j += 1;
    }
    proof {
        let nm = models::of(names@);
        assert(nm.take(nm.len() as int) =~= nm);
        assert forall|name: Seq<char>| #[trigger] params_of(out@).contains(name) <==> occurs(
            data,
            name,
        ) by {
            if params_of(out@).contains(name) {
                assert(nm.contains(name));
                let x = nm.index_of(name);
                assert(names@[x]@ == name);
            }
        }
    }
    out
}

proof fn pushed(s: Seq<Seq<char>>, x: Seq<char>, y: Seq<char>)
    ensures
        s.push(x).contains(y) <==> s.contains(y) || x == y,
{
    if s.contains(y) {
        let i = s.index_of(y);
        assert(s.push(x)[i] == y);
    }
    if x == y {
        assert(s.push(x)[s.len() as int] == y);
    }
    if s.push(x).contains(y) && x != y {
        let i = s.push(x).index_of(y);
        assert(s[i] == y);
    }
}

/// Placing an item adds its name.
proof fn placed(before: Seq<ParamImportance>, at: int, it: ParamImportance)
    requires
        0 <= at <= before.len(),
        params_of(before).no_duplicates(),
        !params_of(before).contains(it.param@),
    ensures
        params_of(before.insert(at, it)).no_duplicates(),
        forall|name: Seq<char>| #[trigger]
            params_of(before.insert(at, it)).contains(name) <==> params_of(before).contains(name)
                || name == it.param@,
{
    let b = params_of(before);
    let a = params_of(before.insert(at, it));
    assert(a =~= b.insert(at, it.param@));
    assert forall|name: Seq<char>| #[trigger] a.contains(name) <==> b.contains(name) || name
        == it.param@ by {
        if b.contains(name) {
            let i = b.index_of(name);
            assert(a[if i < at {
                i
            } else {
                i + 1
            }] == name);
        }
        if name == it.param@ {
            assert(a[at] == name);
        }
        if a.contains(name) && name != it.param@ {
            let i = a.index_of(name);
            assert(b[if i < at {
                i
            } else {
                i - 1
            }] == name);
        }
    }
    assert forall|i: int, j: int| 0 <= i < a.len() && 0 <= j < a.len() && i != j implies a[i]
        != a[j] by {
        let x = if i < at {
            i
        } else {
            i - 1
        };
        let y = if j < at {
            j
        } else {
            j - 1
        };
        if i == at {
            assert(b[y] == a[j]);
        } else if j == at {
            assert(b[x] == a[i]);
        } else {
            assert(b[x] == a[i] && b[y] == a[j]);
        }
    }
}

/// Placing an item that has no importance if it is rare keeps the rare ones without.
proof fn zero_placed(
    data: Seq<(Assignment, Scalar)>,
    before: Seq<ParamImportance>,
    at: int,
    it: ParamImportance,
)
    requires
        0 <= at <= before.len(),
        rare_are_zero(data, before),
        models::pick(data, active_in(it.param@)).len() < 2 ==> it.importance.pattern() == 0,
    ensures
        rare_are_zero(data, before.insert(at, it)),
{
    let after = before.insert(at, it);
    assert forall|k: int|
        0 <= k < after.len() && models::pick(data, active_in((#[trigger] after[k]).param@)).len()
            < 2 implies after[k].importance.pattern() == 0 by {
        if k != at {
            let b = if k < at {
                k
            } else {
                k - 1
            };
            assert(after[k] == before[b]);
        }
    }
}

/// Whether an observation has a value.
pub open spec fn observed_as(v: ParamModel) -> spec_fn((ParamModel, Scalar)) -> bool {
    |o: (ParamModel, Scalar)| o.0 == v
}

/// Whether all observations are of choices.
pub open spec fn all_choices(obs: Seq<(ParamModel, Scalar)>) -> bool {
    forall|i: int| 0 <= i < obs.len() ==> (#[trigger] obs[i]).0 is Categorical
}

proof fn keyed_are_observed(obs: Seq<(ParamModel, Scalar)>, first: ParamModel, key: Seq<char>)
    requires
        all_choices(obs),
        first is Categorical,
    ensures
        models::pick(obs, keyed(first, key)) == values_in(
            obs.filter(observed_as(ParamModel::Categorical(key))),
        ),
    decreases obs.len(),
{
    reveal(Seq::filter);
    let test = observed_as(ParamModel::Categorical(key));
    let picked = models::pick(obs, keyed(first, key));
    if obs.len() > 0 {
        let head = obs.drop_last();
        assert forall|i: int| 0 <= i < head.len() implies (#[trigger] head[i]).0 is Categorical by {
            assert(head[i] == obs[i]);
        }
        keyed_are_observed(head, first, key);
        assert(obs[obs.len() - 1].0 is Categorical);
        assert(picked =~= values_in(obs.filter(test)));
    } else {
        assert(picked =~= values_in(obs.filter(test)));
    }
}

/// Choices are grouped by their value: there is one group for each value that was observed, with
/// the objective's values of exactly the observations that have it.
pub proof fn law_choices_are_grouped_by_value(
    obs: Seq<(ParamModel, Scalar)>,
    groups: Seq<Seq<Scalar>>,
)
    requires
        is_grouping(obs, groups),
        obs.len() > 0,
        all_choices(obs),
    ensures
        exists|values: Seq<ParamModel>|
            values.len() == groups.len() && #[trigger] values.no_duplicates() && (forall|i: int|
                0 <= i < obs.len() ==> values.contains((#[trigger] obs[i]).0)) && (forall|g: int|
                0 <= g < groups.len() ==> #[trigger] groups[g] == values_in(
                    obs.filter(observed_as(values[g])),
                )),
{
    let first = obs[0].0;
    let keys = choose|keys: Seq<Seq<char>>| #[trigger] grouped_by(obs, keys, groups);
    let values = keys.map_values(|k: Seq<char>| ParamModel::Categorical(k));
    assert(values.no_duplicates()) by {
        assert forall|i: int, j: int|
            0 <= i < values.len() && 0 <= j < values.len() && i != j implies values[i]
            != values[j] by {
            if i < j {
                assert(text::text_less(keys[i], keys[j]));
                text::text_less_irreflexive(keys[i]);
            } else {
                assert(text::text_less(keys[j], keys[i]));
                text::text_less_irreflexive(keys[i]);
            }
        }
    }
    assert forall|i: int| 0 <= i < obs.len() implies values.contains((#[trigger] obs[i]).0) by {
        let key = group_key(first, obs[i].0);
        assert(keys.contains(key));
        let k = choose|k: int| 0 <= k < keys.len() && keys[k] == key;
        assert(values[k] == obs[i].0);
    }
    assert forall|g: int| 0 <= g < groups.len() implies #[trigger] groups[g] == values_in(
        obs.filter(observed_as(values[g])),
    ) by {
        keyed_are_observed(obs, first, keys[g]);
    }
}

/// Whether bins cut a list at some places, from its start to its end, each bin non-empty and of
/// nearly the size of any other.
pub open spec fn cut_evenly(ys: Seq<Scalar>, cuts: Seq<int>, bins: Seq<Seq<Scalar>>) -> bool {
    &&& cuts.len() == bins.len() + 1
    &&& cuts[0] == 0
    &&& cuts.last() == ys.len()
    &&& forall|b: int| 0 <= b < bins.len() ==> #[trigger] cuts[b] < cuts[b + 1]
    &&& forall|b: int|
        0 <= b < bins.len() ==> #[trigger] bins[b] == ys.subrange(cuts[b], cuts[b + 1])
    &&& forall|b: int|
        0 <= b < bins.len() ==> -bins.len() < (#[trigger] bins[b]).len() * bins.len() - ys.len()
            < bins.len()
}

/// Numbers are put into bins by their size: with the observations in ascending order of the
/// parameter, at most ten bins of nearly equal size follow one another.
pub proof fn law_numbers_are_binned_in_order(
    xs: Seq<Scalar>,
    ys: Seq<Scalar>,
    bins: Seq<Seq<Scalar>>,
)
    requires
        is_binning(xs, ys, bins),
        xs.len() == ys.len(),
        ys.len() >= 2,
        order::all_numbers(xs),
    ensures
        1 <= bins.len() <= 10,
        exists|p: Seq<usize>, cuts: Seq<int>|
            order::is_permutation(p, xs.len() as int) && (forall|i: int, j: int|
                0 <= i < j < p.len() ==> !xs[(#[trigger] p[j]) as int].less(
                    xs[(#[trigger] p[i]) as int],
                )) && #[trigger] cut_evenly(order::arranged(ys, p), cuts, bins),
{
    let p = choose|p: Seq<usize>| #[trigger]
        order::is_permutation(p, xs.len() as int) && (order::all_numbers(xs) ==> order::is_ranking(
            xs,
            Direction::Minimize,
            p,
        )) && binned(order::arranged(xs, p), order::arranged(ys, p), bins);
    let list = order::arranged(ys, p);
    let n = list.len() as int;
    let k = bin_count(order::arranged(xs, p));
    levels_are_few(order::arranged(xs, p));
    let cuts = Seq::new((k + 1) as nat, |b: int| bin_start(b, k, n));
    assert forall|i: int, j: int| 0 <= i < j < p.len() implies !xs[(#[trigger] p[j]) as int].less(
        xs[(#[trigger] p[i]) as int],
    ) by {
        order::law_rankings_put_the_better_first(xs, Direction::Minimize, p, i, j);
    }
    law_bins_tile_the_ranks(0, k, n);
    assert forall|b: int| 0 <= b < bins.len() implies #[trigger] cuts[b] < cuts[b + 1] by {
        law_bins_tile_the_ranks(b, k, n);
    }
    assert forall|b: int| 0 <= b < bins.len() implies #[trigger] bins[b] == list.subrange(
        cuts[b],
        cuts[b + 1],
    ) by {
        law_bins_tile_the_ranks(b, k, n);
    }
    assert forall|b: int| 0 <= b < bins.len() implies -bins.len() < (#[trigger] bins[b]).len()
        * bins.len() - list.len() < bins.len() by {
        law_bins_tile_the_ranks(b, k, n);
        let (x, y) = (b * n + k - 1, (b + 1) * n + k - 1);
        vstd::arithmetic::div_mod::lemma_fundamental_div_mod(x, k);
        vstd::arithmetic::div_mod::lemma_fundamental_div_mod(y, k);
        vstd::arithmetic::div_mod::lemma_mod_bound(x, k);
        vstd::arithmetic::div_mod::lemma_mod_bound(y, k);
        assert((b + 1) * n == b * n + n) by (nonlinear_arith);
        let (s, t) = (x / k, y / k);
        assert((t - s) * k == k * t - k * s) by (nonlinear_arith);
        assert(bins[b].len() == t - s);
    }
    assert(bins.len() == k);
    assert(cuts[0] == 0 && cuts[k] == n && cuts.last() == cuts[k]);
    assert(cut_evenly(list, cuts, bins));
}

/// Tells trials that have a value for `name`.
pub open spec fn has_param(name: Seq<char>) -> spec_fn((Assignment, Scalar)) -> bool {
    |o: (Assignment, Scalar)| o.0.contains_key(name)
}

/// What the trials that have a value for `name` had for it, each with the objective's value.
pub open spec fn seen_for(data: Seq<(Assignment, Scalar)>, name: Seq<char>) -> Seq<
    (ParamModel, Scalar),
> {
    data.filter(has_param(name)).map_values(|o: (Assignment, Scalar)| (o.0[name], o.1))
}

proof fn active_were_seen(data: Seq<(Assignment, Scalar)>, name: Seq<char>)
    ensures
        models::pick(data, active_in(name)) == seen_for(data, name),
    decreases data.len(),
{
    reveal(Seq::filter);
    let picked = models::pick(data, active_in(name));
    if data.len() > 0 {
        active_were_seen(data.drop_last(), name);
        assert(picked =~= seen_for(data, name));
    } else {
        assert(picked =~= seen_for(data, name));
    }
}

/// Whether `raw` is the part of the objective's variance that lies between the groups of a
/// parameter: a quotient of the two, kept between zero and one. It is zero for fewer than two
/// observations and where nothing varies.
pub open spec fn is_main_effect<R: Reals>(
    reals: &R,
    obs: Seq<(ParamModel, Scalar)>,
    raw: Scalar,
) -> bool {
    ||| raw.pattern() == 0 && obs.len() < 2
    ||| exists|total: Scalar| #[trigger]
        reals::is_variance(reals, values_in(obs), total) && obs.len() >= 2 && if !total.nan()
            && total.key() <= 0x3cb0_0000_0000_0000 {
            raw.pattern() == 0
        } else {
            exists|groups: Seq<Seq<Scalar>>, between: Scalar, ratio: Scalar|
                are_groups(reals, obs, groups) && #[trigger] reals::is_between(
                    reals,
                    groups,
                    between,
                ) && #[trigger] reals::is_quotient(reals, between, total, ratio) && (!ratio.nan()
                    ==> (0 <= ratio.key() <= 0x3ff0_0000_0000_0000 ==> raw == ratio) && (ratio.key()
                    < 0 ==> raw.key() == 0) && (ratio.key() > 0x3ff0_0000_0000_0000 ==> raw.key()
                    == 0x3ff0_0000_0000_0000))
        }
}

/// Whether the importance of a parameter is its main effect as a part of the sum of all of them.
pub open spec fn is_part_of<R: Reals>(
    reals: &R,
    data: Seq<(Assignment, Scalar)>,
    raws: Seq<Scalar>,
    total: Scalar,
    item: ParamImportance,
) -> bool {
    exists|k: int|
        0 <= k < raws.len() && is_main_effect(
            reals,
            seen_for(data, item.param@),
            #[trigger] raws[k],
        ) && if !total.nan() && total.key() > 0 && raws[k].pattern() != 0 {
            reals::is_quotient(reals, raws[k], total, item.importance)
        } else {
            item.importance.pattern() == 0
        }
}

/// Importances are parts of a whole: there is one for each parameter that occurs, its main effect
/// divided by the sum of the main effects of all, and the more important come first.
pub proof fn law_importances_are_parts_of_the_main_effects<R: Reals>(
    reals: &R,
    data: Seq<(Assignment, Scalar)>,
    items: Seq<ParamImportance>,
)
    requires
        is_importance(reals, data, items),
        items.len() > 0,
    ensures
        data.len() >= 2,
        exists|raws: Seq<Scalar>, total: Scalar|
            raws.len() == items.len() && #[trigger] reals::is_sum(reals, raws, total) && (forall|
                i: int,
            |
                0 <= i < items.len() ==> is_part_of(
                    reals,
                    data,
                    raws,
                    total,
                    #[trigger] items[i],
                )),
        all_measured(items) ==> forall|i: int, j: int|
            0 <= i < j < items.len() ==> !(#[trigger] items[i]).importance.less(
                (#[trigger] items[j]).importance,
            ),
{
    let (names, raws, total) = choose|names: Seq<Seq<char>>, raws: Seq<Scalar>, total: Scalar|
     #[trigger]
        are_shares(reals, data, names, raws) && #[trigger] reals::is_sum(reals, raws, total)
            && are_names(data, names) && (forall|i: int|
            0 <= i < items.len() ==> weighs(reals, names, raws, total, #[trigger] items[i]));
    assert(names.len() == items.len()) by {
        let listed = params_of(items);
        assert(names.to_set() =~= listed.to_set()) by {
            assert forall|name: Seq<char>| #[trigger] names.to_set().contains(name)
                == listed.to_set().contains(name) by {
                assert(names.contains(name) <==> occurs(data, name));
                assert(listed.contains(name) <==> occurs(data, name));
            }
        }
        names.unique_seq_to_set();
        listed.unique_seq_to_set();
    }
    assert forall|i: int| 0 <= i < items.len() implies is_part_of(
        reals,
        data,
        raws,
        total,
        #[trigger] items[i],
    ) by {
        let item = items[i];
        assert(weighs(reals, names, raws, total, item));
        let k = choose|k: int|
            0 <= k < names.len() && #[trigger] names[k] == item.param@ && is_weight(
                reals,
                raws[k],
                total,
                item.importance,
            );
        active_were_seen(data, item.param@);
        let obs = seen_for(data, item.param@);
        assert(is_share(reals, obs, raws[k]));
        assert(is_main_effect(reals, obs, raws[k])) by {
            if obs.len() >= 2 {
                let t = choose|t: Scalar| #[trigger]
                    reals::is_variance(reals, values_in(obs), t) && if still(t) {
                        raws[k].pattern() == 0
                    } else {
                        share_of(reals, obs, t, raws[k])
                    };
                if !still(t) {
                    let (groups, between, ratio) = choose|
                        groups: Seq<Seq<Scalar>>,
                        between: Scalar,
                        ratio: Scalar,
                    |
                        are_groups(reals, obs, groups) && #[trigger] reals::is_between(
                            reals,
                            groups,
                            between,
                        ) && #[trigger] reals::is_quotient(reals, between, t, ratio) && raws[k]
                            == ratio.clamped(
                            Scalar { bits: 0 },
                            Scalar { bits: crate::scalar::ONE },
                        );
                    assert(reals::is_between(reals, groups, between) && reals::is_quotient(
                        reals,
                        between,
                        t,
                        ratio,
                    ));
                }
                assert(reals::is_variance(reals, values_in(obs), t));
            }
        }
    }
    if all_measured(items) {
        assert forall|i: int, j: int| 0 <= i < j < items.len() implies !(
        #[trigger] items[i]).importance.less((#[trigger] items[j]).importance) by {
            assert(listed_before(items[i], items[j]));
        }
    }
}

} // verus!
