//! Parzen estimators: mixtures of equally weighted Gaussians on a bounded axis.
//!
//! A mixture has a component at every observation, as wide as the gap to its nearest neighbor,
//! and a broad one over the middle of the axis, so that no region is ever ruled out.

use vstd::prelude::*;
use crate::metrics::Direction;
use crate::order::ranking;
use crate::reals::Reals;
use crate::rng::TrialRng;
use crate::scalar::Scalar;
#[allow(unused_imports)]
use crate::order;
#[allow(unused_imports)]
use crate::reals;

verus! {

/// The narrowest that an axis is taken to be: the bits of `1e-12`.
pub const NARROWEST: u64 = 0x3d71_9799_812d_ea11;

/// The bits of a hundred: no component is narrower than a hundredth of the axis.
pub const HUNDRED: u64 = 0x4059_0000_0000_0000;

/// How many draws are tried before one is moved into the range.
pub const TRIES: usize = 50;

/// The smaller of two gaps, as far as there are any.
pub open spec fn nearer(left: Option<Scalar>, right: Option<Scalar>) -> Option<Scalar> {
    match (left, right) {
        (Some(a), Some(b)) => Some(
            if b.less(a) || a.nan() {
                b
            } else {
                a
            },
        ),
        (Some(a), None) => Some(a),
        (None, r) => r,
    }
}

/// How wide a component is between two gaps: as wide as the smaller one, but within limits, and
/// as wide as it may be without a finite gap.
pub open spec fn band(
    left: Option<Scalar>,
    right: Option<Scalar>,
    least: Scalar,
    most: Scalar,
) -> Scalar {
    match nearer(left, right) {
        Some(gap) => if gap.finite() {
            gap.clamped(least, most)
        } else {
            most
        },
        None => most,
    }
}

/// How wide a component is between two gaps.
fn band_of(left: Option<Scalar>, right: Option<Scalar>, least: Scalar, most: Scalar) -> (s: Scalar)
    ensures
        s == band(left, right, least, most),
{
    let gap = match (left, right) {
        (Some(a), Some(b)) => if b.lt(&a) || a.is_nan() {
            b
        } else {
            a
        },
        (Some(a), None) => a,
        (None, Some(b)) => b,
        (None, None) => {
            return most;
        },
    };
    if gap.is_finite() {
        gap.clamp(&least, &most)
    } else {
        most
    }
}

/// The gap below the component of rank `r`, if there is one.
pub open spec fn gap_below(gaps: Seq<Scalar>, r: int) -> Option<Scalar> {
    if r > 0 {
        Some(gaps[r - 1])
    } else {
        None
    }
}

/// The gap above the component of rank `r`, if there is one.
pub open spec fn gap_above(gaps: Seq<Scalar>, r: int) -> Option<Scalar> {
    if r < gaps.len() {
        Some(gaps[r])
    } else {
        None
    }
}

/// Whether components ordered by `order`, with `gaps` between neighbors, have these widths: the
/// last component is as wide as it may be, any other goes by its gaps.
pub open spec fn is_banded(
    order: Seq<usize>,
    gaps: Seq<Scalar>,
    least: Scalar,
    most: Scalar,
    sigmas: Seq<Scalar>,
) -> bool {
    &&& sigmas.len() == order.len()
    &&& forall|r: int|
        0 <= r < order.len() ==> sigmas[(#[trigger] order[r]) as int] == if order[r] == order.len()
            - 1 {
            most
        } else {
            band(gap_below(gaps, r), gap_above(gaps, r), least, most)
        }
}

/// The widths of components, given their order and the gaps between neighbors.
pub fn bands(order: &Vec<usize>, gaps: &Vec<Scalar>, least: Scalar, most: Scalar) -> (sigmas: Vec<
    Scalar,
>)
    requires
        order@.len() > 0,
        gaps@.len() == order@.len() - 1,
        order::is_permutation(order@, order@.len() as int),
    ensures
        is_banded(order@, gaps@, least, most, sigmas@),
        sigmas@.last() == most,
{
    let n = order.len();
    let mut sigmas: Vec<Scalar> = Vec::new();
    while sigmas.len() < n
        invariant
            sigmas@.len() <= n,
            forall|k: int| 0 <= k < sigmas@.len() ==> #[trigger] sigmas@[k] == most,
        decreases n - sigmas@.len(),
    {
        sigmas.push(most);
    }
    let mut r: usize = 0;
    while r < n
        invariant
            r <= n,
            n == order@.len(),
            gaps@.len() == n - 1,
            sigmas@.len() == n,
            order::is_permutation(order@, n as int),
            forall|k: int|
                0 <= k < r ==> sigmas@[(#[trigger] order@[k]) as int] == if order@[k] == n - 1 {
                    most
                } else {
                    band(gap_below(gaps@, k), gap_above(gaps@, k), least, most)
                },
            sigmas@[n - 1] == most,
        decreases n - r,
    {
        let i = order[r];
        if i != n - 1 {
            let left = if r > 0 {
                Some(gaps[r - 1])
            } else {
                None
            };
            let right = if r < n - 1 {
                Some(gaps[r])
            } else {
                None
            };
            let ghost before = sigmas@;
            sigmas.set(i, band_of(left, right, least, most));
            proof {
                assert forall|k: int| 0 <= k < r + 1 implies sigmas@[(
                #[trigger] order@[k]) as int] == if order@[k] == n - 1 {
                    most
                } else {
                    band(gap_below(gaps@, k), gap_above(gaps@, k), least, most)
                } by {
                    if k < r {
                        assert(order@[k] != order@[r as int]);
                        assert(sigmas@[order@[k] as int] == before[order@[k] as int]);
                    }
                }
            }
        }
        r += 1;
    }
    sigmas
}

/// The first of the greatest numbers among `terms`, negative infinity when there is none above it.
pub open spec fn greatest(terms: Seq<Scalar>) -> Scalar
    decreases terms.len(),
{
    if terms.len() == 0 {
        Scalar { bits: LOWEST }
    } else {
        let most = greatest(terms.drop_last());
        if most.less(terms.last()) {
            terms.last()
        } else {
            most
        }
    }
}

/// Whether `x` is the greatest number among `terms`, the first one among equals, and negative
/// infinity when there is none above it.
pub open spec fn is_greatest(terms: Seq<Scalar>, x: Scalar) -> bool {
    &&& x == greatest(terms)
    &&& !x.nan()
    &&& forall|i: int|
        0 <= i < terms.len() && !(#[trigger] terms[i]).nan() ==> terms[i].key() <= x.key()
    &&& x.pattern() == LOWEST || terms.contains(x)
}

/// The bits of negative infinity.
pub const LOWEST: u64 = 0xfff0_0000_0000_0000;

/// Whether `most` is the width of an axis, or the narrowest one if that is more.
pub open spec fn is_reach<R: Reals>(reals: &R, lo: Scalar, hi: Scalar, most: Scalar) -> bool {
    exists|width: Scalar| #[trigger]
        reals::is_difference(reals, hi, lo, width) && most == if width.less(
            Scalar { bits: NARROWEST },
        ) || width.nan() {
            Scalar { bits: NARROWEST }
        } else {
            width
        }
}

/// Whether `gaps` lie between neighbors in an order of centers.
pub open spec fn are_gaps<R: Reals>(
    reals: &R,
    mus: Seq<Scalar>,
    order: Seq<usize>,
    gaps: Seq<Scalar>,
) -> bool {
    &&& gaps.len() == order.len() - 1
    &&& forall|r: int|
        0 <= r < gaps.len() ==> reals::is_difference(
            reals,
            mus[order[r + 1] as int],
            mus[order[r] as int],
            #[trigger] gaps[r],
        )
}

/// A mixture of equally weighted Gaussians over `[lo, hi]`.
#[derive(Debug)]
pub struct Parzen {
    /// The centers: the observations, then the middle of the axis.
    pub mus: Vec<Scalar>,
    /// The widths.
    pub sigmas: Vec<Scalar>,
    /// The lower end of the axis.
    pub lo: Scalar,
    /// The upper end of the axis.
    pub hi: Scalar,
}

impl Parzen {
    /// Whether there is a width for every center, and at least one of them.
    pub open spec fn well_formed(self) -> bool {
        self.mus@.len() > 0 && self.sigmas@.len() == self.mus@.len()
    }

    /// Whether the mixture models `obs` on its axis: there is a component at every observation,
    /// whose width goes by the gaps to its neighbors, and a last one in the middle that spans the
    /// axis.
    pub open spec fn models<R: Reals>(self, reals: &R, obs: Seq<Scalar>) -> bool {
        &&& self.well_formed()
        &&& self.mus@.drop_last() == obs
        &&& reals::is_midpoint(reals, self.lo, self.hi, self.mus@.last())
        &&& is_reach(reals, self.lo, self.hi, self.sigmas@.last())
        &&& !self.sigmas@.last().nan()
        &&& self.sigmas@.last().key() >= NARROWEST
        &&& exists|order: Seq<usize>, gaps: Seq<Scalar>, least: Scalar|
            order == order::sorted(self.mus@, Direction::Minimize) && order::is_permutation(
                order,
                self.mus@.len() as int,
            ) && (order::all_numbers(self.mus@) ==> order::is_ranking(
                self.mus@,
                Direction::Minimize,
                order,
            )) && are_gaps(
                reals,
                self.mus@,
                order,
                gaps,
            ) && reals::is_quotient(
                reals,
                self.sigmas@.last(),
                Scalar { bits: HUNDRED },
                least,
            ) && #[trigger] is_banded(order, gaps, least, self.sigmas@.last(), self.sigmas@)
    }

    /// The mixture for observations on `[lo, hi]`. The middle of the axis, its width and the
    /// gaps between neighbors are the answers of `reals`.
    pub fn new<R: Reals>(obs: &Vec<Scalar>, lo: Scalar, hi: Scalar, reals: &R) -> (p: Self)
        ensures
            p.models(reals, obs@),
            p.lo == lo,
            p.hi == hi,
    {
        let middle = reals.midpoint(lo, hi);
        let width = reals.difference(hi, lo);
        proof {
            assert(reals::is_difference(reals, hi, lo, width));
        }
        let narrowest = Scalar::from_bits(NARROWEST);
        let most = if width.lt(&narrowest) || width.is_nan() {
            narrowest
        } else {
            width
        };
        let mut mus: Vec<Scalar> = Vec::new();
        while mus.len() < obs.len()
            invariant
                mus@.len() <= obs@.len(),
                mus@ =~= obs@.take(mus@.len() as int),
            decreases obs@.len() - mus@.len(),
        {
            let i = mus.len();
            mus.push(obs[i]);
        }
        mus.push(middle);
        let n = mus.len();
        let order = ranking(&mus, Direction::Minimize);
        let least = reals.quotient(most, Scalar::from_bits(HUNDRED));
        let mut gaps: Vec<Scalar> = Vec::new();
        while gaps.len() < n - 1
            invariant
                gaps@.len() <= n - 1,
                n == mus@.len(),
                n >= 1,
                order::is_permutation(order@, n as int),
                forall|r: int|
                    0 <= r < gaps@.len() ==> reals::is_difference(
                        reals,
                        mus@[order@[r + 1] as int],
                        mus@[order@[r] as int],
                        #[trigger] gaps@[r],
                    ),
            decreases n - 1 - gaps@.len(),
        {
            let r = gaps.len();
            gaps.push(reals.difference(mus[order[r + 1]], mus[order[r]]));
        }
        let sigmas = bands(&order, &gaps, least, most);
        proof {
            assert(mus@.drop_last() =~= obs@);
            assert(are_gaps(reals, mus@, order@, gaps@));
            assert(is_banded(order@, gaps@, least, sigmas@.last(), sigmas@));
        }
        Parzen { mus, sigmas, lo, hi }
    }

    /// Whether `x` lies on the axis.
    pub open spec fn holds(self, x: Scalar) -> bool {
        (self.lo.less(x) || self.lo.same(x)) && (x.less(self.hi) || x.same(self.hi))
    }

    /// Whether `x` comes of drawing from component `k` at `rng`, with `after` the position behind
    /// it: the first of so many draws that lies on the axis, or else one more that is moved
    /// there.
    pub open spec fn is_tried<R: Reals>(
        self,
        reals: &R,
        k: int,
        tries: nat,
        rng: TrialRng,
        x: Scalar,
        after: TrialRng,
    ) -> bool
        decreases tries,
    {
        exists|d: Scalar, then: TrialRng| #[trigger]
            reals::is_normal(reals, self.mus@[k], self.sigmas@[k], rng, d, then) && if tries
                == 0 {
                let moved = d.clamped(self.lo, self.hi);
                after == then && x == if moved.nan() {
                    self.lo
                } else {
                    moved
                }
            } else if self.holds(d) {
                x == d && after == then
            } else {
                self.is_tried(reals, k, (tries - 1) as nat, then, x, after)
            }
    }

    /// Whether `x` is drawn from the mixture at `rng`, with `after` the position behind it.
    pub open spec fn is_sample<R: Reals>(
        self,
        reals: &R,
        rng: TrialRng,
        x: Scalar,
        after: TrialRng,
    ) -> bool {
        let n = self.mus@.len() as u64;
        self.is_tried(reals, rng.pick(n) as int, TRIES as nat, rng.past_pick(n), x, after)
    }

    /// Draws from the mixture, within `[lo, hi]`: a component is drawn, and draws from it are
    /// tried until one lies inside; after a few the next one is moved inside.
    pub fn sample<R: Reals>(&self, rng: &mut TrialRng, reals: &R) -> (x: Scalar)
        requires
            self.well_formed(),
        ensures
            !self.lo.nan() && !self.hi.nan() && self.lo.key() <= self.hi.key() ==> !x.nan()
                && self.lo.key() <= x.key() <= self.hi.key(),
            self.is_sample(reals, *old(rng), x, *final(rng)),
    {
        let k = rng.below(self.mus.len() as u64) as usize;
        let ghost start = *rng;
        let mut i: usize = 0;
        while i < TRIES
            invariant
                i <= TRIES,
                self.well_formed(),
                k < self.mus@.len(),
                k == old(rng).pick(self.mus@.len() as u64),
                start == old(rng).past_pick(self.mus@.len() as u64),
                forall|x: Scalar, after: TrialRng| #[trigger]
                    self.is_tried(reals, k as int, (TRIES - i) as nat, *rng, x, after)
                        ==> self.is_tried(reals, k as int, TRIES as nat, start, x, after),
            decreases TRIES - i,
        {
            let ghost here = *rng;
            let (x, after) = reals.normal(self.mus[k], self.sigmas[k], *rng);
            *rng = after;
            proof {
                assert(reals::is_normal(
                    reals,
                    self.mus@[k as int],
                    self.sigmas@[k as int],
                    here,
                    x,
                    after,
                ));
            }
            if self.lo.le(&x) && x.le(&self.hi) {
                proof {
                    assert(self.is_tried(reals, k as int, (TRIES - i) as nat, here, x, after));
                }
                return x;
            }
            proof {
                assert forall|y: Scalar, end: TrialRng| #[trigger]
                    self.is_tried(
                        reals,
                        k as int,
                        (TRIES - (i + 1)) as nat,
                        after,
                        y,
                        end,
                    ) implies self.is_tried(reals, k as int, TRIES as nat, start, y, end) by {
                    assert(self.is_tried(reals, k as int, (TRIES - i) as nat, here, y, end));
                }
            }
            i += 1;
        }
        let ghost here = *rng;
        let (last, after) = reals.normal(self.mus[k], self.sigmas[k], *rng);
        *rng = after;
        let moved = last.clamp(&self.lo, &self.hi);
        let x = if moved.is_nan() {
            self.lo
        } else {
            moved
        };
        proof {
            assert(reals::is_normal(
                reals,
                self.mus@[k as int],
                self.sigmas@[k as int],
                here,
                last,
                after,
            ));
            assert(self.is_tried(reals, k as int, (TRIES - i) as nat, here, x, after));
        }
        x
    }

    /// Whether `terms` are the log densities of the components at `x`.
    pub open spec fn are_terms<R: Reals>(self, reals: &R, x: Scalar, terms: Seq<Scalar>) -> bool {
        &&& terms.len() <= self.mus@.len()
        &&& forall|i: int|
            0 <= i < terms.len() ==> reals::is_log_density(
                reals,
                x,
                self.mus@[i],
                self.sigmas@[i],
                self.mus@.len() as usize,
                #[trigger] terms[i],
            )
    }

    /// Whether `r` is the log density at `x`: the logarithm of the sum of what the components
    /// give, and negative infinity where none gives more.
    pub open spec fn has_log_density<R: Reals>(self, reals: &R, x: Scalar, r: Scalar) -> bool {
        exists|terms: Seq<Scalar>, greatest: Scalar|
            terms.len() == self.mus@.len() && #[trigger] self.are_terms(reals, x, terms)
                && #[trigger] is_greatest(terms, greatest) && if greatest.pattern()
                == LOWEST {
                r == greatest
            } else {
                reals::is_log_sum(reals, terms, greatest, r)
            }
    }

    /// The log density at `x`, without renormalizing for the ends of the axis.
    fn log_density<R: Reals>(&self, x: Scalar, reals: &R) -> (r: Scalar)
        requires
            self.well_formed(),
        ensures
            self.has_log_density(reals, x, r),
    {
        let n = self.mus.len();
        let mut terms: Vec<Scalar> = Vec::new();
        let mut greatest = Scalar::neg_infinity();
        while terms.len() < n
            invariant
                terms@.len() <= n,
                n == self.mus@.len(),
                self.well_formed(),
                self.are_terms(reals, x, terms@),
                is_greatest(terms@, greatest),
            decreases n - terms@.len(),
        {
            let i = terms.len();
            let t = reals.log_density(x, self.mus[i], self.sigmas[i], n);
            proof {
                let more = terms@.push(t);
                assert(more.drop_last() =~= terms@);
                assert forall|k: int| 0 <= k < more.len() implies reals::is_log_density(
                    reals,
                    x,
                    self.mus@[k],
                    self.sigmas@[k],
                    self.mus@.len() as usize,
                    #[trigger] more[k],
                ) by {
                    if k < terms@.len() {
                        assert(more[k] == terms@[k]);
                    }
                }
                if !greatest.less(t) {
                    if terms@.contains(greatest) {
                        let k = terms@.index_of(greatest);
                        assert(more[k] == greatest);
                    }
                } else {
                    assert(more[i as int] == t);
                }
            }
            if greatest.lt(&t) {
                greatest = t;
            }
            terms.push(t);
        }
        let r = if greatest.equals(&Scalar::neg_infinity()) {
            greatest
        } else {
            reals.log_sum(&terms, greatest)
        };
        proof {
            assert(self.are_terms(reals, x, terms@) && is_greatest(terms@, greatest));
        }
        r
    }
}

/// Whether `score` is how much likelier `x` is in the good mixture than in the bad one: the
/// difference of the log densities.
pub open spec fn is_score<R: Reals>(
    good: &Parzen,
    bad: &Parzen,
    reals: &R,
    x: Scalar,
    score: Scalar,
) -> bool {
    exists|l: Scalar, g: Scalar| #[trigger]
        good.has_log_density(reals, x, l) && #[trigger] bad.has_log_density(reals, x, g)
            && reals::is_difference(reals, l, g, score)
}

/// Whether candidates are drawn from the good mixture and scored, one after the other, leading
/// from one position to another.
pub open spec fn are_candidates<R: Reals>(
    good: &Parzen,
    bad: &Parzen,
    reals: &R,
    found: Seq<(Scalar, Scalar)>,
    from: TrialRng,
    to: TrialRng,
) -> bool
    decreases found.len(),
{
    if found.len() == 0 {
        to == from
    } else {
        exists|then: TrialRng|
            are_candidates(good, bad, reals, found.drop_last(), from, then)
                && #[trigger] good.is_sample(reals, then, found.last().0, to) && is_score(
                good,
                bad,
                reals,
                found.last().0,
                found.last().1,
            )
    }
}

/// Draws `n` candidates (at least one) from the good mixture, each scored by how much likelier it
/// is there than in the bad one.
pub fn candidates<R: Reals>(
    good: &Parzen,
    bad: &Parzen,
    n: usize,
    rng: &mut TrialRng,
    reals: &R,
) -> (found: Vec<(Scalar, Scalar)>)
    requires
        good.well_formed(),
        bad.well_formed(),
    ensures
        found@.len() == if n < 1 {
            1
        } else {
            n as int
        },
        are_candidates(good, bad, reals, found@, *old(rng), *final(rng)),
        !good.lo.nan() && !good.hi.nan() && good.lo.key() <= good.hi.key() ==> forall|i: int|
            0 <= i < found@.len() ==> !(#[trigger] found@[i]).0.nan() && good.lo.key()
                <= found@[i].0.key() <= good.hi.key(),
{
    let mut found: Vec<(Scalar, Scalar)> = Vec::new();
    while found.len() < 1 || found.len() < n
        invariant
            good.well_formed(),
            bad.well_formed(),
            found@.len() <= if n < 1 {
                1
            } else {
                n as int
            },
            are_candidates(good, bad, reals, found@, *old(rng), *rng),
            !good.lo.nan() && !good.hi.nan() && good.lo.key() <= good.hi.key() ==> forall|i: int|
                0 <= i < found@.len() ==> !(#[trigger] found@[i]).0.nan() && good.lo.key()
                    <= found@[i].0.key() <= good.hi.key(),
        decreases n + 1 - found@.len(),
    {
        let ghost before = found@;
        let ghost then = *rng;
        let t = good.sample(rng, reals);
        let l = good.log_density(t, reals);
        let g = bad.log_density(t, reals);
        let score = reals.difference(l, g);
        proof {
            assert(good.has_log_density(reals, t, l) && bad.has_log_density(reals, t, g));
            assert(is_score(good, bad, reals, t, score));
        }
        found.push((t, score));
        proof {
            assert(found@.drop_last() =~= before);
            assert(good.is_sample(reals, then, found@.last().0, *rng));
        }
    }
    found
}

/// Whether a width goes by the gaps on either side of a component: the nearer one, kept between the
/// least and the most that it may be.
pub open spec fn goes_by_gaps(
    below: Scalar,
    above: Scalar,
    least: Scalar,
    most: Scalar,
    width: Scalar,
) -> bool {
    below.finite() && above.finite() && !least.nan() && !most.nan() && least.key() <= most.key()
        ==> !width.nan() && least.key() <= width.key() <= most.key() && (least.key() <= below.key()
        <= above.key() && below.key() <= most.key() ==> width.key() == below.key()) && (least.key()
        <= above.key() <= below.key() && above.key() <= most.key() ==> width.key() == above.key())
}

/// A component inside is as wide as the nearer of the gaps to its neighbors, but no wider than the
/// axis and no narrower than a hundredth of it; the last component is as wide as the axis.
pub proof fn law_components_are_as_wide_as_the_nearer_gap<R: Reals>(
    m: Parzen,
    reals: &R,
    obs: Seq<Scalar>,
)
    requires
        m.models(reals, obs),
        order::all_numbers(m.mus@),
    ensures
        exists|p: Seq<usize>, gaps: Seq<Scalar>, least: Scalar|
            order::is_permutation(p, m.mus@.len() as int) && #[trigger] are_gaps(
                reals,
                m.mus@,
                p,
                gaps,
            ) && (forall|i: int, j: int|
                0 <= i < j < p.len() ==> !m.mus@[(#[trigger] p[j]) as int].less(
                    m.mus@[(#[trigger] p[i]) as int],
                )) && #[trigger] reals::is_quotient(
                reals,
                m.sigmas@.last(),
                Scalar { bits: 0x4059_0000_0000_0000 },
                least,
            ) && (forall|r: int|
                0 < r < p.len() - 1 && (#[trigger] p[r]) != m.mus@.len() - 1 ==> goes_by_gaps(
                    gaps[r - 1],
                    gaps[r],
                    least,
                    m.sigmas@.last(),
                    m.sigmas@[p[r] as int],
                )),
        is_reach(reals, m.lo, m.hi, m.sigmas@.last()),
{
    let (p, gaps, least) = choose|p: Seq<usize>, gaps: Seq<Scalar>, least: Scalar|
        p == order::sorted(m.mus@, Direction::Minimize) && order::is_permutation(
            p,
            m.mus@.len() as int,
        ) && (order::all_numbers(m.mus@) ==> order::is_ranking(m.mus@, Direction::Minimize, p))
            && are_gaps(reals, m.mus@, p, gaps) && reals::is_quotient(
            reals,
            m.sigmas@.last(),
            Scalar { bits: HUNDRED },
            least,
        ) && #[trigger] is_banded(p, gaps, least, m.sigmas@.last(), m.sigmas@);
    assert forall|i: int, j: int| 0 <= i < j < p.len() implies !m.mus@[(
    #[trigger] p[j]) as int].less(m.mus@[(#[trigger] p[i]) as int]) by {
        order::law_rankings_put_the_better_first(m.mus@, Direction::Minimize, p, i, j);
    }
    assert(are_gaps(reals, m.mus@, p, gaps) && reals::is_quotient(
        reals,
        m.sigmas@.last(),
        Scalar { bits: HUNDRED },
        least,
    ));
    assert forall|r: int| 0 < r < p.len() - 1 && (#[trigger] p[r]) != m.mus@.len()
        - 1 implies goes_by_gaps(
        gaps[r - 1],
        gaps[r],
        least,
        m.sigmas@.last(),
        m.sigmas@[p[r] as int],
    ) by {
        assert(m.sigmas@[p[r] as int] == band(
            gap_below(gaps, r),
            gap_above(gaps, r),
            least,
            m.sigmas@.last(),
        ));
    }
}

} // verus!
