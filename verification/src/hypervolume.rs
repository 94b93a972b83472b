//! The dominated hypervolume of a Pareto front: a scalar quality measure of the whole set.
//!
//! Objectives are turned into losses, so the measure does not depend on directions. It is exact
//! for one or two objectives; for three or more it is a deterministic Monte-Carlo estimate.

use vstd::prelude::*;
use crate::metrics::{Direction, NamedMetrics, Objective, ObjectiveModel};
use crate::order::ranking;
use crate::pareto::{extract, MemberModel, ParetoFront};
use crate::rng::TrialRng;
use crate::sampler::GOLDEN;
use crate::scalar::Scalar;
use crate::trial::Metrics;
#[allow(unused_imports)]
use crate::models;
#[allow(unused_imports)]
use crate::order;
#[allow(unused_imports)]
use crate::pareto;

verus! {

/// How many points a Monte-Carlo estimate draws.
pub const SAMPLES: usize = 20_000;

/// The arithmetic of volumes. Nothing is assumed of the answers.
pub trait Volumes {
    /// The length from `from` up to `to`; zero when `to` lies below.
    fn length(&self, from: Scalar, to: Scalar) -> Scalar;

    /// An area with a rectangle added that reaches from `left` to `right` and from `low` to
    /// `high`.
    fn widened(
        &self,
        area: Scalar,
        left: Scalar,
        right: Scalar,
        low: Scalar,
        high: Scalar,
    ) -> Scalar;

    /// The volume of the box between two corners; zero when a side is negative.
    fn volume(&self, low: &Vec<Scalar>, high: &Vec<Scalar>) -> Scalar;

    /// A point drawn from the box between two corners, and the position behind the draw.
    fn draw(&self, low: &Vec<Scalar>, high: &Vec<Scalar>, rng: TrialRng) -> (
        Vec<Scalar>,
        TrialRng,
    );

    /// The share `part / whole` of a volume.
    fn portion(&self, volume: Scalar, part: usize, whole: usize) -> Scalar;
}

/// Whether `r` is an answer to the length from `from` up to `to`.
pub open spec fn is_length<V: Volumes>(volumes: &V, from: Scalar, to: Scalar, r: Scalar) -> bool {
    call_ensures(V::length, (volumes, from, to), r)
}

/// Whether `r` is an answer to an area with the rectangle of a stair added, which reaches up to
/// `right`.
pub open spec fn is_widened<V: Volumes>(
    volumes: &V,
    area: Scalar,
    stair: Stair,
    right: Scalar,
    r: Scalar,
) -> bool {
    call_ensures(V::widened, (volumes, area, stair.x, right, stair.y, stair.ceiling), r)
}

/// Whether `r` is an answer to the volume of the box between two corners.
pub open spec fn is_volume<V: Volumes>(
    volumes: &V,
    low: Vec<Scalar>,
    high: Vec<Scalar>,
    r: Scalar,
) -> bool {
    call_ensures(V::volume, (volumes, &low, &high), r)
}

/// Whether `r` is an answer to a draw from the box between two corners at a position.
pub open spec fn is_draw<V: Volumes>(
    volumes: &V,
    low: Vec<Scalar>,
    high: Vec<Scalar>,
    rng: TrialRng,
    r: (Vec<Scalar>, TrialRng),
) -> bool {
    call_ensures(V::draw, (volumes, &low, &high, rng), r)
}

/// Whether `r` is an answer to a share of a volume.
pub open spec fn is_portion<V: Volumes>(
    volumes: &V,
    volume: Scalar,
    part: usize,
    whole: usize,
    r: Scalar,
) -> bool {
    call_ensures(V::portion, (volumes, volume, part, whole), r)
}

/// A value as a loss.
pub open spec fn as_loss(d: Direction, x: Scalar) -> Scalar {
    match d {
        Direction::Minimize => x,
        Direction::Maximize => x.flipped(),
    }
}

/// Values as losses, objective by objective.
pub open spec fn losses(objectives: Seq<ObjectiveModel>, v: Seq<Scalar>) -> Seq<Scalar> {
    Seq::new(objectives.len(), |i: int| as_loss(objectives[i].direction, v[i]))
}

/// A better value is a smaller loss.
pub proof fn law_better_is_a_smaller_loss(d: Direction, a: Scalar, b: Scalar)
    ensures
        d.better(a, b) <==> as_loss(d, a).less(as_loss(d, b)),
{
    crate::scalar::flipping_reverses(a, b);
}

/// Values as losses, objective by objective.
pub fn to_loss(objectives: &Vec<Objective>, v: &Vec<Scalar>) -> (r: Vec<Scalar>)
    requires
        v@.len() == objectives@.len(),
    ensures
        r@ == losses(models::of(objectives@), v@),
{
    let mut out: Vec<Scalar> = Vec::new();
    let ghost objs = models::of(objectives@);
    let mut i: usize = 0;
    while i < objectives.len()
        invariant
            i <= objectives@.len(),
            v@.len() == objectives@.len(),
            objs == models::of(objectives@),
            out@.len() == i,
            forall|k: int| 0 <= k < i ==> #[trigger] out@[k] == as_loss(objs[k].direction, v@[k]),
        decreases objectives@.len() - i,
    {
        proof {
            assert(objs[i as int].direction == objectives@[i as int].direction);
        }
        out.push(
            match objectives[i].direction {
                Direction::Minimize => v[i],
                Direction::Maximize => v[i].neg(),
            },
        );
        i += 1;
    }
    proof {
        assert(out@ =~= losses(objs, v@));
    }
    out
}

/// One rectangle of a staircase: it reaches from `x` to the reference, and from `y` up to
/// `ceiling`.
#[derive(Debug, Clone, Copy, PartialEq, Eq, Structural)]
pub struct Stair {
    /// The left side.
    pub x: Scalar,
    /// The lower side.
    pub y: Scalar,
    /// The upper side.
    pub ceiling: Scalar,
}

/// Selects the points strictly inside the reference box.
pub open spec fn if_inside(reference: Seq<Scalar>) -> spec_fn(Seq<Scalar>) -> Option<
    (Scalar, Scalar),
> {
    |p: Seq<Scalar>|
        if p[0].less(reference[0]) && p[1].less(reference[1]) {
            Some((p[0], p[1]))
        } else {
            None
        }
}

/// The first coordinates of points.
pub open spec fn lefts(points: Seq<(Scalar, Scalar)>) -> Seq<Scalar> {
    points.map_values(|p: (Scalar, Scalar)| p.0)
}

/// The ceiling left by a walk through points: the lowest second coordinate so far.
pub open spec fn ceiling_after(points: Seq<(Scalar, Scalar)>, top: Scalar) -> Scalar
    decreases points.len(),
{
    if points.len() == 0 {
        top
    } else {
        let c = ceiling_after(points.drop_last(), top);
        if points.last().1.less(c) {
            points.last().1
        } else {
            c
        }
    }
}

/// The rectangles that a walk through points adds: one for each point below the ceiling.
pub open spec fn stairs_of(points: Seq<(Scalar, Scalar)>, top: Scalar) -> Seq<Stair>
    decreases points.len(),
{
    if points.len() == 0 {
        Seq::empty()
    } else {
        let rest = stairs_of(points.drop_last(), top);
        let c = ceiling_after(points.drop_last(), top);
        let (x, y) = points.last();
        if y.less(c) {
            rest.push(Stair { x, y, ceiling: c })
        } else {
            rest
        }
    }
}

/// Whether `stairs` are the rectangles of the points inside the reference box, walked from left
/// to right.
pub open spec fn is_staircase(
    points: Seq<Seq<Scalar>>,
    reference: Seq<Scalar>,
    stairs: Seq<Stair>,
) -> bool {
    let inside = models::pick(points, if_inside(reference));
    exists|p: Seq<usize>| #[trigger]
        order::is_ranking(lefts(inside), Direction::Minimize, p) && stairs == stairs_of(
            Seq::new(p.len(), |i: int| inside[p[i] as int]),
            reference[1],
        )
}

/// The models of points.
pub open spec fn points_of(points: Seq<Vec<Scalar>>) -> Seq<Seq<Scalar>> {
    points.map_values(|p: Vec<Scalar>| p@)
}

/// The rectangles that make up the area dominated by points of two losses.
pub fn staircase(points: &Vec<Vec<Scalar>>, reference: &Vec<Scalar>) -> (stairs: Vec<Stair>)
    requires
        reference@.len() == 2,
        forall|i: int| 0 <= i < points@.len() ==> (#[trigger] points@[i])@.len() == 2,
    ensures
        is_staircase(points_of(points@), reference@, stairs@),
{
    let ghost all = points_of(points@);
    let ghost f = if_inside(reference@);
    let mut inside: Vec<(Scalar, Scalar)> = Vec::new();
    let mut xs: Vec<Scalar> = Vec::new();
    let mut i: usize = 0;
    proof {
        assert(all.take(0).len() == 0);
        assert(xs@ =~= lefts(inside@));
    }
    while i < points.len()
        invariant
            i <= points@.len(),
            reference@.len() == 2,
            forall|i: int| 0 <= i < points@.len() ==> (#[trigger] points@[i])@.len() == 2,
            all == points_of(points@),
            f == if_inside(reference@),
            inside@ == models::pick(all.take(i as int), f),
            xs@ == lefts(inside@),
        decreases points@.len() - i,
    {
        proof {
            models::pick_step(all, i as int, f);
            assert(all[i as int] == points@[i as int]@);
        }
        let p = &points[i];
        if p[0].lt(&reference[0]) && p[1].lt(&reference[1]) {
            let ghost before = inside@;
            inside.push((p[0], p[1]));
            xs.push(p[0]);
            proof {
                assert(lefts(inside@) =~= lefts(before).push(p@[0]));
            }
        }
        i += 1;
    }
    proof {
        models::pick_whole(all, f);
        assert forall|k: int| 0 <= k < xs@.len() implies !(#[trigger] xs@[k]).nan() by {
            let o = models::pick_origin(all, f, k);
            assert(inside@[k].0 == all[o][0]);
        }
    }
    let p = ranking(&xs, Direction::Minimize);
    let ghost walked = Seq::new(p@.len(), |i: int| inside@[p@[i] as int]);
    let mut stairs: Vec<Stair> = Vec::new();
    let mut ceiling = reference[1];
    let mut j: usize = 0;
    proof {
        assert(walked.take(0).len() == 0);
        assert(xs@.len() == inside@.len());
    }
    while j < p.len()
        invariant
            j <= p@.len(),
            xs@.len() == inside@.len(),
            order::is_permutation(p@, xs@.len() as int),
            walked == Seq::new(p@.len(), |i: int| inside@[p@[i] as int]),
            reference@.len() == 2,
            ceiling == ceiling_after(walked.take(j as int), reference@[1]),
            stairs@ == stairs_of(walked.take(j as int), reference@[1]),
        decreases p@.len() - j,
    {
        let at = p[j];
        let (x, y) = inside[at];
        proof {
            assert(walked.take(j + 1).drop_last() =~= walked.take(j as int));
            assert(walked.take(j + 1).last() == (x, y));
        }
        if y.lt(&ceiling) {
            stairs.push(Stair { x, y, ceiling });
            ceiling = y;
        }
        j += 1;
    }
    proof {
        assert(walked.take(j as int) =~= walked);
        assert(order::is_ranking(xs@, Direction::Minimize, p@));
    }
    stairs
}

/// A staircase descends: each rectangle hangs from the floor of the one before it.
pub proof fn law_staircase_descends(points: Seq<(Scalar, Scalar)>, top: Scalar, i: int)
    requires
        0 <= i < stairs_of(points, top).len(),
    ensures
        stairs_of(points, top)[i].y.less(stairs_of(points, top)[i].ceiling),
        stairs_of(points, top)[i].ceiling == if i == 0 {
            top
        } else {
            stairs_of(points, top)[i - 1].y
        },
    decreases points.len(),
{
    let rest = points.drop_last();
    if i < stairs_of(rest, top).len() {
        law_staircase_descends(rest, top, i);
    } else {
        ceiling_is_last_floor(rest, top);
    }
}

proof fn ceiling_is_last_floor(points: Seq<(Scalar, Scalar)>, top: Scalar)
    ensures
        ceiling_after(points, top) == if stairs_of(points, top).len() == 0 {
            top
        } else {
            stairs_of(points, top).last().y
        },
    decreases points.len(),
{
    if points.len() > 0 {
        ceiling_is_last_floor(points.drop_last(), top);
    }
}

/// Whether a point lies at or beyond `p` on every loss.
pub open spec fn beyond(p: Seq<Scalar>, sample: Seq<Scalar>) -> bool {
    forall|d: int|
        0 <= d < p.len() ==> (#[trigger] p[d]).less(sample[d]) || p[d].same(sample[d])
}

/// Whether the front dominates a sample: it lies beyond some point.
pub open spec fn swept(points: Seq<Seq<Scalar>>, sample: Seq<Scalar>) -> bool {
    exists|i: int| 0 <= i < points.len() && beyond(#[trigger] points[i], sample)
}

/// Whether some point dominates a sample.
pub fn is_swept(points: &Vec<Vec<Scalar>>, sample: &Vec<Scalar>) -> (r: bool)
    requires
        forall|i: int|
            0 <= i < points@.len() ==> (#[trigger] points@[i])@.len() == sample@.len(),
    ensures
        r == swept(points_of(points@), sample@),
{
    let ghost all = points_of(points@);
    let mut i: usize = 0;
    while i < points.len()
        invariant
            i <= points@.len(),
            all == points_of(points@),
            forall|i: int|
                0 <= i < points@.len() ==> (#[trigger] points@[i])@.len() == sample@.len(),
            forall|k: int| 0 <= k < i ==> !beyond(#[trigger] all[k], sample@),
        decreases points@.len() - i,
    {
        let p = &points[i];
        proof {
            assert(all[i as int] == p@);
        }
        let mut d: usize = 0;
        while d < p.len() && p[d].le(&sample[d])
            invariant
                d <= p@.len(),
                p@.len() == sample@.len(),
                forall|k: int|
                    0 <= k < d ==> (#[trigger] p@[k]).less(sample@[k]) || p@[k].same(sample@[k]),
            decreases p@.len() - d,
        {
            d += 1;
        }
        if d == p.len() {
            proof {
                assert(beyond(all[i as int], sample@));
            }
            return true;
        }
        i += 1;
    }
    false
}

/// Whether `x` is the least number in column `d` of the points, infinity when there is none.
pub open spec fn is_least(points: Seq<Seq<Scalar>>, d: int, x: Scalar) -> bool {
    &&& !x.nan()
    &&& forall|i: int|
        0 <= i < points.len() && !(#[trigger] points[i])[d].nan() ==> x.key() <= points[i][d].key()
    &&& x.key() == crate::scalar::INFINITE || exists|i: int|
        0 <= i < points.len() && x == (#[trigger] points[i])[d]
}

/// The least of each loss over the points.
pub fn ideal(points: &Vec<Vec<Scalar>>, dims: usize) -> (r: Vec<Scalar>)
    requires
        forall|i: int| 0 <= i < points@.len() ==> (#[trigger] points@[i])@.len() == dims,
    ensures
        r@.len() == dims,
        forall|d: int| 0 <= d < dims ==> is_least(points_of(points@), d, #[trigger] r@[d]),
{
    let ghost all = points_of(points@);
    let mut out: Vec<Scalar> = Vec::new();
    let mut d: usize = 0;
    while d < dims
        invariant
            d <= dims,
            all == points_of(points@),
            forall|i: int| 0 <= i < points@.len() ==> (#[trigger] points@[i])@.len() == dims,
            out@.len() == d,
            forall|k: int| 0 <= k < d ==> is_least(all, k, #[trigger] out@[k]),
        decreases dims - d,
    {
        let mut least = Scalar::infinity();
        let mut i: usize = 0;
        proof {
            assert(all.take(0).len() == 0);
        }
        while i < points.len()
            invariant
                i <= points@.len(),
                d < dims,
                all == points_of(points@),
                forall|i: int| 0 <= i < points@.len() ==> (#[trigger] points@[i])@.len() == dims,
                is_least(all.take(i as int), d as int, least),
            decreases points@.len() - i,
        {
            let ghost before = least;
            let x = points[i][d];
            if x.lt(&least) {
                least = x;
            }
            proof {
                let (a, b) = (all.take(i as int), all.take(i + 1));
                assert(b[i as int] == points@[i as int]@);
                assert forall|k: int|
                    0 <= k < b.len() && !(#[trigger] b[k])[d as int].nan() implies least.key()
                    <= b[k][d as int].key() by {
                    if k < i {
                        assert(a[k] == b[k]);
                    }
                }
                if least != x && before.key() != crate::scalar::INFINITE {
                    let k = choose|k: int|
                        0 <= k < a.len() && before == (#[trigger] a[k])[d as int];
                    assert(b[k] == a[k]);
                }
            }
            i += 1;
        }
        proof {
            assert(all.take(i as int) =~= all);
        }
        out.push(least);
        d += 1;
    }
    out
}

/// What is left to measure of a dominated volume once the front has been laid out.
pub enum Outline {
    /// Nothing is dominated.
    Empty,
    /// One objective: where the members lie, and how far the reference reaches.
    Line {
        /// The losses of the members.
        from: Vec<Scalar>,
        /// The loss of the reference.
        to: Scalar,
    },
    /// Two objectives: rectangles that reach up to `right`.
    Stairs {
        /// The rectangles.
        stairs: Vec<Stair>,
        /// The first loss of the reference.
        right: Scalar,
    },
    /// More objectives: the box that holds the dominated volume.
    Cloud {
        /// The losses of the members.
        points: Vec<Vec<Scalar>>,
        /// The least of each loss.
        low: Vec<Scalar>,
        /// The losses of the reference.
        high: Vec<Scalar>,
    },
}

/// The losses of the members of a front.
pub open spec fn member_losses(
    objectives: Seq<ObjectiveModel>,
    members: Seq<MemberModel>,
) -> Seq<Seq<Scalar>> {
    members.map_values(|m: MemberModel| losses(objectives, m.values))
}

/// Whether `o` lays a front out against a reference.
pub open spec fn is_outline(
    objectives: Seq<ObjectiveModel>,
    members: Seq<MemberModel>,
    reference: Metrics,
    o: Outline,
) -> bool {
    let all = member_losses(objectives, members);
    let corner = losses(objectives, pareto::values_of(objectives, reference));
    if !pareto::has_all(objectives, reference) || members.len() == 0 || objectives.len() == 0 {
        o is Empty
    } else if objectives.len() == 1 {
        o matches Outline::Line { from, to } && to == corner[0] && from@ == Seq::new(
            all.len(),
            |i: int| all[i][0],
        )
    } else if objectives.len() == 2 {
        o matches Outline::Stairs { stairs, right } && right == corner[0] && is_staircase(
            all,
            corner,
            stairs@,
        )
    } else {
        o matches Outline::Cloud { points, low, high } && points_of(points@) == all && high@
            == corner && low@.len() == objectives.len() && forall|d: int|
            0 <= d < low@.len() ==> is_least(all, d, #[trigger] low@[d])
    }
}

/// Whether `r` is the greatest of some lengths, zero without one above it.
pub open spec fn is_longest(lengths: Seq<Scalar>, r: Scalar) -> bool {
    &&& !r.nan() && r.key() >= 0
    &&& forall|i: int|
        0 <= i < lengths.len() && !(#[trigger] lengths[i]).nan() ==> lengths[i].key() <= r.key()
    &&& r.pattern() == 0 || (r.key() > 0 && lengths.contains(r))
}

/// The greatest of some lengths, zero without one above it.
pub fn longest(lengths: &Vec<Scalar>) -> (r: Scalar)
    ensures
        is_longest(lengths@, r),
{
    let mut best = Scalar::zero();
    let mut k: usize = 0;
    while k < lengths.len()
        invariant
            k <= lengths@.len(),
            !best.nan() && best.key() >= 0,
            forall|i: int|
                0 <= i < k && !(#[trigger] lengths@[i]).nan() ==> lengths@[i].key() <= best.key(),
            best.pattern() == 0 || (best.key() > 0 && lengths@.contains(best)),
        decreases lengths@.len() - k,
    {
        if best.lt(&lengths[k]) {
            best = lengths[k];
        }
        k += 1;
    }
    best
}

/// The samples that the points dominate.
pub open spec fn hits(points: Seq<Seq<Scalar>>, dims: int, samples: Seq<Vec<Scalar>>) -> Seq<
    Vec<Scalar>,
> {
    samples.filter(|s: Vec<Scalar>| s@.len() == dims && swept(points, s@))
}

/// How many samples the points dominate; a sample of another size is not dominated.
pub fn count_hits(points: &Vec<Vec<Scalar>>, dims: usize, samples: &Vec<Vec<Scalar>>) -> (n: usize)
    requires
        forall|i: int| 0 <= i < points@.len() ==> (#[trigger] points@[i])@.len() == dims,
    ensures
        n == hits(points_of(points@), dims as int, samples@).len(),
{
    let ghost f = |s: Vec<Scalar>| s@.len() == dims && swept(points_of(points@), s@);
    let mut n: usize = 0;
    let mut k: usize = 0;
    proof {
        assert(samples@.take(0) =~= Seq::empty());
        reveal(Seq::filter);
    }
    while k < samples.len()
        invariant
            k <= samples@.len(),
            n <= k,
            forall|i: int| 0 <= i < points@.len() ==> (#[trigger] points@[i])@.len() == dims,
            f == (|s: Vec<Scalar>| s@.len() == dims && swept(points_of(points@), s@)),
            n == samples@.take(k as int).filter(f).len(),
        decreases samples@.len() - k,
    {
        proof {
            reveal(Seq::filter);
            assert(samples@.take(k + 1).drop_last() =~= samples@.take(k as int));
            assert(samples@.take(k + 1).last() == samples@[k as int]);
        }
        if samples[k].len() == dims && is_swept(points, &samples[k]) {
            n += 1;
        }
        k += 1;
    }
    proof {
        assert(samples@.take(k as int) =~= samples@);
    }
    n
}

/// Whether `lengths` reach from each of some points up to `to`.
pub open spec fn are_lengths<V: Volumes>(
    volumes: &V,
    from: Seq<Scalar>,
    to: Scalar,
    lengths: Seq<Scalar>,
) -> bool {
    &&& lengths.len() == from.len()
    &&& forall|i: int|
        0 <= i < from.len() ==> is_length(volumes, from[i], to, #[trigger] lengths[i])
}

/// Whether `area` is that of stairs, added up from zero one after the other.
pub open spec fn is_area<V: Volumes>(
    volumes: &V,
    stairs: Seq<Stair>,
    right: Scalar,
    area: Scalar,
) -> bool
    decreases stairs.len(),
{
    if stairs.len() == 0 {
        area.pattern() == 0
    } else {
        exists|before: Scalar|
            is_area(volumes, stairs.drop_last(), right, before) && #[trigger] is_widened(
                volumes,
                before,
                stairs.last(),
                right,
                area,
            )
    }
}

/// Whether `samples` are drawn from the box between two corners one after the other, and lead
/// from one position to another.
pub open spec fn are_draws<V: Volumes>(
    volumes: &V,
    low: Vec<Scalar>,
    high: Vec<Scalar>,
    samples: Seq<Vec<Scalar>>,
    from: TrialRng,
    to: TrialRng,
) -> bool
    decreases samples.len(),
{
    if samples.len() == 0 {
        to == from
    } else {
        exists|then: TrialRng|
            are_draws(volumes, low, high, samples.drop_last(), from, then)
                && #[trigger] is_draw(volumes, low, high, then, (samples.last(), to))
    }
}

/// Whether `r` is a Monte-Carlo estimate of what points dominate of the box between two corners:
/// the share of its volume that drawn samples hit; zero for a box without a volume.
pub open spec fn is_estimate<V: Volumes>(
    volumes: &V,
    points: Seq<Seq<Scalar>>,
    low: Vec<Scalar>,
    high: Vec<Scalar>,
    r: Scalar,
) -> bool {
    exists|volume: Scalar| #[trigger]
        is_volume(volumes, low, high, volume) && if !volume.nan() && volume.key() <= 0 {
            r.pattern() == 0
        } else {
            hit_share(volumes, points, low, high, volume, r)
        }
}

/// Whether `r` is the share of a volume that samples drawn from its box hit.
pub open spec fn hit_share<V: Volumes>(
    volumes: &V,
    points: Seq<Seq<Scalar>>,
    low: Vec<Scalar>,
    high: Vec<Scalar>,
    volume: Scalar,
    r: Scalar,
) -> bool {
    exists|samples: Seq<Vec<Scalar>>, end: TrialRng|
        samples.len() == SAMPLES && #[trigger] are_draws(
            volumes,
            low,
            high,
            samples,
            TrialRng { seed: GOLDEN, word: 0 },
            end,
        ) && is_portion(
            volumes,
            volume,
            hits(points, low@.len() as int, samples).len() as usize,
            SAMPLES,
            r,
        )
}

/// Whether `r` measures a laid-out volume: the longest way to the reference for one objective,
/// the area of the stairs for two, and an estimate for more.
pub open spec fn is_measure<V: Volumes>(volumes: &V, outline: Outline, r: Scalar) -> bool {
    match outline {
        Outline::Empty => r.pattern() == 0,
        Outline::Line { from, to } => exists|lengths: Seq<Scalar>| #[trigger]
            are_lengths(volumes, from@, to, lengths) && is_longest(lengths, r),
        Outline::Stairs { stairs, right } => is_area(volumes, stairs@, right, r),
        Outline::Cloud { points, low, high } => is_estimate(
            volumes,
            points_of(points@),
            low,
            high,
            r,
        ),
    }
}

/// Whether `r` is the hypervolume of a front relative to a reference: a measure of the front as
/// it lies against the reference.
pub open spec fn is_hypervolume<V: Volumes>(
    volumes: &V,
    objectives: Seq<ObjectiveModel>,
    members: Seq<MemberModel>,
    reference: Metrics,
    r: Scalar,
) -> bool {
    exists|o: Outline| #[trigger]
        is_outline(objectives, members, reference, o) && is_measure(volumes, o, r)
}

/// Measures a laid-out volume. The lengths, areas and volumes, and the points of a Monte-Carlo
/// estimate, are the answers of `volumes`.
fn measure<V: Volumes>(outline: &Outline, volumes: &V) -> (r: Scalar)
    requires
        outline matches Outline::Cloud { points, low, high } ==> high@.len() == low@.len() && (
        forall|i: int| 0 <= i < points@.len() ==> (#[trigger] points@[i])@.len() == low@.len()),
    ensures
        is_measure(volumes, *outline, r),
{
    match outline {
        Outline::Empty => Scalar::zero(),
        Outline::Line { from, to } => {
            let mut lengths: Vec<Scalar> = Vec::new();
            let mut k: usize = 0;
            while k < from.len()
                invariant
                    k <= from@.len(),
                    lengths@.len() == k,
                    forall|i: int|
                        0 <= i < k ==> is_length(volumes, from@[i], *to, #[trigger] lengths@[i]),
                decreases from@.len() - k,
            {
                lengths.push(volumes.length(from[k], *to));
                k += 1;
            }
            let r = longest(&lengths);
            proof {
                assert(are_lengths(volumes, from@, *to, lengths@));
            }
            r
        },
        Outline::Stairs { stairs, right } => {
            let mut area = Scalar::zero();
            let mut k: usize = 0;
            proof {
                assert(stairs@.take(0).len() == 0);
            }
            while k < stairs.len()
                invariant
                    k <= stairs@.len(),
                    is_area(volumes, stairs@.take(k as int), *right, area),
                decreases stairs@.len() - k,
            {
                let s = stairs[k];
                let ghost before = area;
                area = volumes.widened(area, s.x, *right, s.y, s.ceiling);
                proof {
                    let head = stairs@.take(k + 1);
                    assert(head.drop_last() =~= stairs@.take(k as int));
                    assert(is_widened(volumes, before, head.last(), *right, area));
                }
                k += 1;
            }
            proof {
                assert(stairs@.take(k as int) =~= stairs@);
            }
            area
        },
        Outline::Cloud { points, low, high } => {
            let volume = volumes.volume(low, high);
            proof {
                assert(is_volume(volumes, *low, *high, volume));
            }
            if volume.le(&Scalar::zero()) {
                return Scalar::zero();
            }
            let mut rng = TrialRng::new(GOLDEN);
            let ghost from = rng;
            let mut samples: Vec<Vec<Scalar>> = Vec::new();
            while samples.len() < SAMPLES
                invariant
                    samples@.len() <= SAMPLES,
                    are_draws(volumes, *low, *high, samples@, from, rng),
                decreases SAMPLES - samples@.len(),
            {
                let ghost drawn = samples@;
                let ghost then = rng;
                let (sample, next) = volumes.draw(low, high, rng);
                samples.push(sample);
                rng = next;
                proof {
                    assert(samples@.drop_last() =~= drawn);
                    assert(is_draw(volumes, *low, *high, then, (samples@.last(), rng)));
                }
            }
            let inside = count_hits(points, low.len(), &samples);
            let r = volumes.portion(volume, inside, SAMPLES);
            proof {
                assert(are_draws(volumes, *low, *high, samples@, from, rng));
                assert(hit_share(volumes, points_of(points@), *low, *high, volume, r));
            }
            r
        },
    }
}

impl ParetoFront {
    /// Lays the front out against a `reference` point.
    pub fn outline(&self, reference: &NamedMetrics) -> (o: Outline)
        ensures
            is_outline(self.ranks_by(), self.front(), reference@, o),
    {
        let objectives = self.objectives();
        let ghost objs = self.ranks_by();
        let corner = match extract(objectives, reference) {
            Some(v) => v,
            None => {
                return Outline::Empty;
            },
        };
        let dims = objectives.len();
        if self.is_empty() || dims == 0 {
            return Outline::Empty;
        }
        let bound = to_loss(objectives, &corner);
        let members = self.members();
        let mut points: Vec<Vec<Scalar>> = Vec::new();
        let mut i: usize = 0;
        while i < members.len()
            invariant
                i <= members@.len(),
                objs == models::of(objectives@),
                dims == objs.len(),
                models::of(members@) == self.front(),
                pareto::mutually_non_dominated(objs, self.front()),
                objs == self.ranks_by(),
                points@.len() == i,
                forall|k: int|
                    0 <= k < i ==> (#[trigger] points@[k])@ == losses(objs, self.front()[k].values),
            decreases members@.len() - i,
        {
            proof {
                assert(self.front()[i as int] == members@[i as int]@);
            }
            points.push(to_loss(objectives, &members[i].values));
            i += 1;
        }
        let ghost all = member_losses(objs, self.front());
        proof {
            assert(points_of(points@) =~= all);
        }
        if dims == 1 {
            let mut from: Vec<Scalar> = Vec::new();
            let mut k: usize = 0;
            while k < points.len()
                invariant
                    k <= points@.len(),
                    all == points_of(points@),
                    forall|j: int| 0 <= j < points@.len() ==> (#[trigger] points@[j])@.len() == 1,
                    from@.len() == k,
                    forall|j: int| 0 <= j < k ==> from@[j] == (#[trigger] all[j])[0],
                decreases points@.len() - k,
            {
                proof {
                    assert(all[k as int] == points@[k as int]@);
                }
                from.push(points[k][0]);
                k += 1;
            }
            proof {
                assert(from@ =~= Seq::new(all.len(), |i: int| all[i][0]));
            }
            return Outline::Line { from, to: bound[0] };
        }
        if dims == 2 {
            return Outline::Stairs { stairs: staircase(&points, &bound), right: bound[0] };
        }
        let low = ideal(&points, dims);
        Outline::Cloud { points, low, high: bound }
    }

    /// The dominated hypervolume of the front relative to a `reference` point, which every
    /// member should dominate. Larger is better. Zero without members or objectives, and when
    /// the reference lacks an objective. What is measured is [`ParetoFront::outline`], by the
    /// answers of `volumes`.
    pub fn hypervolume<V: Volumes>(&self, reference: &NamedMetrics, volumes: &V) -> (r: Scalar)
        ensures
            is_hypervolume(volumes, self.ranks_by(), self.front(), reference@, r),
            !pareto::has_all(self.ranks_by(), reference@) || self.front().len() == 0
                || self.ranks_by().len() == 0 ==> r.pattern() == 0,
            pareto::has_all(self.ranks_by(), reference@) && self.ranks_by().len() == 1
                ==> !r.nan() && r.key() >= 0,
            pareto::has_all(self.ranks_by(), reference@) && self.ranks_by().len() == 2
                && nothing_inside(self.ranks_by(), self.front(), reference@) ==> r.pattern() == 0,
    {
        let outline = self.outline(reference);
        proof {
            let objs = self.ranks_by();
            let all = member_losses(objs, self.front());
            match &outline {
                Outline::Stairs { stairs, .. } => {
                    if nothing_inside(objs, self.front(), reference@) {
                        let corner = losses(objs, pareto::values_of(objs, reference@));
                        nothing_inside_means_no_stairs(all, corner, stairs@);
                    }
                },
                Outline::Cloud { points, low, .. } => {
                    assert forall|i: int| 0 <= i < points@.len() implies (
                    #[trigger] points@[i])@.len() == low@.len() by {
                        assert(points_of(points@).len() == points@.len());
                        assert(points@[i]@ == points_of(points@)[i]);
                        assert(all[i] == losses(objs, self.front()[i].values));
                    }
                },
                _ => {},
            }
        }
        measure(&outline, volumes)
    }
}

proof fn nothing_inside_means_no_stairs(
    points: Seq<Seq<Scalar>>,
    corner: Seq<Scalar>,
    stairs: Seq<Stair>,
)
    requires
        is_staircase(points, corner, stairs),
        forall|i: int|
            0 <= i < points.len() ==> !((#[trigger] points[i])[0].less(corner[0])
                && points[i][1].less(corner[1])),
    ensures
        stairs.len() == 0,
{
    let f = if_inside(corner);
    let inside = models::pick(points, f);
    if inside.len() > 0 {
        let o = models::pick_origin(points, f, 0);
    }
    let p = choose|p: Seq<usize>| #[trigger]
        order::is_ranking(lefts(inside), Direction::Minimize, p) && stairs == stairs_of(
            Seq::new(p.len(), |i: int| inside[p[i] as int]),
            corner[1],
        );
    assert(p.len() == 0);
}

/// Whether no member lies strictly inside the box of a reference of two objectives.
pub open spec fn nothing_inside(
    objectives: Seq<ObjectiveModel>,
    members: Seq<MemberModel>,
    reference: Metrics,
) -> bool {
    let corner = losses(objectives, pareto::values_of(objectives, reference));
    forall|i: int|
        0 <= i < members.len() ==> !(losses(objectives, (#[trigger] members[i]).values)[0].less(
            corner[0],
        ) && losses(objectives, members[i].values)[1].less(corner[1]))
}

/// Whether a member is at least as good as a sampled point on every objective.
pub open spec fn is_as_good(
    objectives: Seq<ObjectiveModel>,
    m: MemberModel,
    sample: Seq<Scalar>,
) -> bool {
    forall|d: int|
        0 <= d < objectives.len() ==> as_loss(
            (#[trigger] objectives[d]).direction,
            m.values[d],
        ).less(sample[d]) || as_loss(objectives[d].direction, m.values[d]).same(sample[d])
}

/// Whether some member is at least as good as a sampled point on every objective.
pub open spec fn some_is_as_good(
    objectives: Seq<ObjectiveModel>,
    members: Seq<MemberModel>,
    sample: Seq<Scalar>,
) -> bool {
    exists|i: int|
        0 <= i < members.len() && is_as_good(objectives, #[trigger] members[i], sample)
}

/// Tells the sampled points that the front dominates.
pub open spec fn dominated(
    objectives: Seq<ObjectiveModel>,
    members: Seq<MemberModel>,
) -> spec_fn(Vec<Scalar>) -> bool {
    |s: Vec<Scalar>|
        s@.len() == objectives.len() && some_is_as_good(objectives, members, s@)
}

/// Whether samples were drawn from a box one after the other, each where the one before stopped.
pub open spec fn drawn_in_turn<V: Volumes>(
    volumes: &V,
    low: Vec<Scalar>,
    high: Vec<Scalar>,
    samples: Seq<Vec<Scalar>>,
    stops: Seq<TrialRng>,
) -> bool {
    &&& stops.len() == samples.len() + 1
    &&& forall|k: int|
        0 <= k < samples.len() ==> call_ensures(
            V::draw,
            (volumes, &low, &high, stops[k]),
            (#[trigger] samples[k], stops[k + 1]),
        )
}

proof fn draws_come_in_turn<V: Volumes>(
    volumes: &V,
    low: Vec<Scalar>,
    high: Vec<Scalar>,
    samples: Seq<Vec<Scalar>>,
    from: TrialRng,
    to: TrialRng,
) -> (stops: Seq<TrialRng>)
    requires
        are_draws(volumes, low, high, samples, from, to),
    ensures
        drawn_in_turn(volumes, low, high, samples, stops),
        stops[0] == from,
        stops.last() == to,
    decreases samples.len(),
{
    if samples.len() == 0 {
        seq![from]
    } else {
        let then = choose|then: TrialRng|
            are_draws(volumes, low, high, samples.drop_last(), from, then) && #[trigger] is_draw(
                volumes,
                low,
                high,
                then,
                (samples.last(), to),
            );
        let stops = draws_come_in_turn(volumes, low, high, samples.drop_last(), from, then);
        let all = stops.push(to);
        assert forall|k: int| 0 <= k < samples.len() implies is_draw(
            volumes,
            low,
            high,
            all[k],
            (#[trigger] samples[k], all[k + 1]),
        ) by {
            if k < samples.len() - 1 {
                assert(samples.drop_last()[k] == samples[k]);
            }
        }
        all
    }
}

/// Whether a box spans what the members can dominate: it ends at the reference and starts at the
/// least loss of all members.
pub open spec fn spans(
    objectives: Seq<ObjectiveModel>,
    members: Seq<MemberModel>,
    reference: Metrics,
    low: Seq<Scalar>,
    high: Seq<Scalar>,
) -> bool {
    &&& low.len() == objectives.len()
    &&& high.len() == objectives.len()
    &&& forall|d: int|
        0 <= d < high.len() ==> #[trigger] high[d] == as_loss(
            objectives[d].direction,
            reference[objectives[d].name],
        )
    &&& forall|d: int, i: int|
        0 <= d < low.len() && 0 <= i < members.len() ==> !as_loss(
            objectives[d].direction,
            (#[trigger] members[i]).values[d],
        ).less(#[trigger] low[d])
    &&& forall|d: int|
        0 <= d < low.len() && (#[trigger] low[d]).key() != crate::scalar::INFINITE ==> exists|
            i: int,
        |
            0 <= i < members.len() && low[d] == as_loss(
                objectives[d].direction,
                (#[trigger] members[i]).values[d],
            )
}

/// The hypervolume of three or more objectives is the share of a box that the front dominates: of
/// twenty thousand points drawn from the box between the best losses and the reference, the part
/// that some member is as good as, out of all of them. A box without volume measures zero.
pub proof fn law_estimates_count_the_dominated_points<V: Volumes>(
    volumes: &V,
    objectives: Seq<ObjectiveModel>,
    members: Seq<MemberModel>,
    reference: Metrics,
    r: Scalar,
)
    requires
        is_hypervolume(volumes, objectives, members, reference, r),
        pareto::has_all(objectives, reference),
        members.len() > 0,
        objectives.len() >= 3,
    ensures
        exists|low: Vec<Scalar>, high: Vec<Scalar>, volume: Scalar|
            spans(objectives, members, reference, low@, high@) && #[trigger] call_ensures(
                V::volume,
                (volumes, &low, &high),
                volume,
            ) && if !volume.nan() && volume.key() <= 0 {
                r.pattern() == 0
            } else {
                exists|samples: Seq<Vec<Scalar>>, stops: Seq<TrialRng>|
                    samples.len() == 20_000 && stops[0] == (TrialRng {
                        seed: 0x9E37_79B9_7F4A_7C15,
                        word: 0,
                    }) && #[trigger] drawn_in_turn(volumes, low, high, samples, stops)
                        && call_ensures(
                        V::portion,
                        (
                            volumes,
                            volume,
                            samples.filter(dominated(objectives, members)).len() as usize,
                            20_000,
                        ),
                        r,
                    )
            },
{
    let o = choose|o: Outline| #[trigger]
        is_outline(objectives, members, reference, o) && is_measure(volumes, o, r);
    let all = member_losses(objectives, members);
    let (points, low, high) = (o->points, o->low, o->high);
    let volume = choose|volume: Scalar| #[trigger]
        is_volume(volumes, low, high, volume) && if !volume.nan() && volume.key() <= 0 {
            r.pattern() == 0
        } else {
            hit_share(volumes, all, low, high, volume, r)
        };
    assert(spans(objectives, members, reference, low@, high@)) by {
        assert forall|d: int, i: int|
            0 <= d < low@.len() && 0 <= i < members.len() implies !as_loss(
            objectives[d].direction,
            (#[trigger] members[i]).values[d],
        ).less(#[trigger] low@[d]) by {
            assert(is_least(all, d, low@[d]));
            assert(all[i][d] == as_loss(objectives[d].direction, members[i].values[d]));
        }
        assert forall|d: int|
            0 <= d < low@.len() && (#[trigger] low@[d]).key()
                != crate::scalar::INFINITE implies exists|i: int|
            0 <= i < members.len() && low@[d] == as_loss(
                objectives[d].direction,
                (#[trigger] members[i]).values[d],
            ) by {
            assert(is_least(all, d, low@[d]));
            let i = choose|i: int| 0 <= i < all.len() && low@[d] == (#[trigger] all[i])[d];
            assert(low@[d] == as_loss(objectives[d].direction, members[i].values[d]));
        }
    }
    if !(!volume.nan() && volume.key() <= 0) {
        let (samples, end) = choose|samples: Seq<Vec<Scalar>>, end: TrialRng|
            samples.len() == SAMPLES && #[trigger] are_draws(
                volumes,
                low,
                high,
                samples,
                TrialRng { seed: GOLDEN, word: 0 },
                end,
            ) && is_portion(
                volumes,
                volume,
                hits(all, low@.len() as int, samples).len() as usize,
                SAMPLES,
                r,
            );
        let stops = draws_come_in_turn(
            volumes,
            low,
            high,
            samples,
            TrialRng { seed: GOLDEN, word: 0 },
            end,
        );
        hits_are_dominated(objectives, members, samples);
        assert(drawn_in_turn(volumes, low, high, samples, stops));
    }
}

proof fn hits_are_dominated(
    objectives: Seq<ObjectiveModel>,
    members: Seq<MemberModel>,
    samples: Seq<Vec<Scalar>>,
)
    ensures
        hits(member_losses(objectives, members), objectives.len() as int, samples)
            == samples.filter(dominated(objectives, members)),
    decreases samples.len(),
{
    reveal(Seq::filter);
    let all = member_losses(objectives, members);
    if samples.len() > 0 {
        hits_are_dominated(objectives, members, samples.drop_last());
        let s = samples.last();
        assert((s@.len() == objectives.len() && swept(all, s@)) == dominated(objectives, members)(s))
            by {
            if swept(all, s@) {
                let i = choose|i: int| 0 <= i < all.len() && beyond(#[trigger] all[i], s@);
                assert forall|d: int| 0 <= d < objectives.len() implies as_loss(
                    (#[trigger] objectives[d]).direction,
                    members[i].values[d],
                ).less(s@[d]) || as_loss(objectives[d].direction, members[i].values[d]).same(
                    s@[d],
                ) by {
                    assert(all[i][d] == as_loss(objectives[d].direction, members[i].values[d]));
                }
                assert(is_as_good(objectives, members[i], s@));
            }
            if some_is_as_good(objectives, members, s@) {
                let i = choose|i: int|
                    0 <= i < members.len() && is_as_good(objectives, #[trigger] members[i], s@);
                assert(beyond(all[i], s@)) by {
                    assert forall|d: int| 0 <= d < all[i].len() implies (
                    #[trigger] all[i][d]).less(s@[d]) || all[i][d].same(s@[d]) by {
                        assert(all[i][d] == as_loss(objectives[d].direction, members[i].values[d]));
                    }
                }
            }
        }
    }
}

/// The hypervolume of one objective is the longest way from a member to the reference.
pub proof fn law_line_is_the_longest_way<V: Volumes>(
    volumes: &V,
    objectives: Seq<ObjectiveModel>,
    members: Seq<MemberModel>,
    reference: Metrics,
    r: Scalar,
)
    requires
        is_hypervolume(volumes, objectives, members, reference, r),
        pareto::has_all(objectives, reference),
        members.len() > 0,
        objectives.len() == 1,
    ensures
        exists|ways: Seq<Scalar>|
            ways.len() == members.len() && (forall|i: int|
                0 <= i < ways.len() ==> call_ensures(
                    V::length,
                    (
                        volumes,
                        as_loss(objectives[0].direction, members[i].values[0]),
                        as_loss(objectives[0].direction, reference[objectives[0].name]),
                    ),
                    #[trigger] ways[i],
                )) && (forall|i: int| 0 <= i < ways.len() ==> !r.less(#[trigger] ways[i])) && (
            r.pattern() == 0 || #[trigger] ways.contains(r)),
{
    let o = choose|o: Outline| #[trigger]
        is_outline(objectives, members, reference, o) && is_measure(volumes, o, r);
    let all = member_losses(objectives, members);
    let (from, to) = (o->from, o->to);
    let ways = choose|lengths: Seq<Scalar>| #[trigger]
        are_lengths(volumes, from@, to, lengths) && is_longest(lengths, r);
    assert forall|i: int| 0 <= i < ways.len() implies is_length(
        volumes,
        as_loss(objectives[0].direction, members[i].values[0]),
        as_loss(objectives[0].direction, reference[objectives[0].name]),
        #[trigger] ways[i],
    ) by {
        assert(all[i][0] == as_loss(objectives[0].direction, members[i].values[0]));
    }
    assert(ways.contains(r) || r.pattern() == 0);
}

proof fn stairs_cover(points: Seq<(Scalar, Scalar)>, top: Scalar, k: int)
    requires
        0 <= k < points.len(),
        forall|i: int|
            0 <= i < points.len() ==> !(#[trigger] points[i]).0.nan() && points[i].1.less(top),
        forall|i: int, j: int|
            0 <= i <= j < points.len() ==> (#[trigger] points[i]).0.key() <= (
            #[trigger] points[j]).0.key(),
    ensures
        exists|s: int|
            0 <= s < stairs_of(points, top).len() && !points[k].0.less(
                (#[trigger] stairs_of(points, top)[s]).x,
            ) && !points[k].1.less(stairs_of(points, top)[s].y),
        !points[k].1.less(ceiling_after(points, top)),
        forall|s: int|
            0 <= s < stairs_of(points, top).len() ==> points.contains(
                ((#[trigger] stairs_of(points, top)[s]).x, stairs_of(points, top)[s].y),
            ),
    decreases points.len(),
{
    let rest = points.drop_last();
    let stairs = stairs_of(points, top);
    assert(points[k].1.less(top));
    assert(points.last().1.less(top));
    if rest.len() > 0 {
        let j = if k < rest.len() {
            k
        } else {
            0
        };
        assert forall|i: int| 0 <= i < rest.len() implies !(#[trigger] rest[i]).0.nan()
            && rest[i].1.less(top) by {
            assert(rest[i] == points[i]);
        }
        stairs_cover(rest, top, j);
        ceiling_is_last_floor(rest, top);
    }
    ceiling_is_last_floor(points, top);
    assert forall|s: int| 0 <= s < stairs.len() implies points.contains(
        ((#[trigger] stairs[s]).x, stairs[s].y),
    ) by {
        if s < stairs_of(rest, top).len() {
            assert(stairs[s] == stairs_of(rest, top)[s]);
            let corner = (stairs[s].x, stairs[s].y);
            assert(rest.contains(corner));
            let i = choose|i: int| 0 <= i < rest.len() && rest[i] == corner;
            assert(points[i] == corner);
        } else {
            assert(points[points.len() - 1] == (stairs[s].x, stairs[s].y));
        }
    }
    if k < rest.len() {
        let s = choose|s: int|
            0 <= s < stairs_of(rest, top).len() && !rest[k].0.less(
                (#[trigger] stairs_of(rest, top)[s]).x,
            ) && !rest[k].1.less(stairs_of(rest, top)[s].y);
        assert(stairs[s] == stairs_of(rest, top)[s]);
    } else {
        let s = stairs.len() - 1;
        if rest.len() == 0 {
            assert(stairs_of(rest, top).len() == 0);
        }
        assert(stairs.len() > 0);
        let corner = (stairs[s].x, stairs[s].y);
        assert(points.contains(corner));
        let i = choose|i: int| 0 <= i < points.len() && points[i] == corner;
        assert(points[i].0.key() <= points[k].0.key());
    }
}

/// Whether stairs trace the members inside a box of two objectives: every corner is a member
/// strictly inside, every such member is met by a stair that is as good on both objectives, and
/// each stair hangs from the floor of the one before, the first from the top of the box.
pub open spec fn trace(
    objectives: Seq<ObjectiveModel>,
    members: Seq<MemberModel>,
    right: Scalar,
    top: Scalar,
    stairs: Seq<Stair>,
) -> bool {
    &&& forall|s: int|
        0 <= s < stairs.len() ==> (#[trigger] stairs[s]).x.less(right) && stairs[s].y.less(
            stairs[s].ceiling,
        ) && stairs[s].ceiling == if s == 0 {
            top
        } else {
            stairs[s - 1].y
        }
    &&& forall|s: int|
        0 <= s < stairs.len() ==> exists|i: int|
            0 <= i < members.len() && (#[trigger] stairs[s]).x == as_loss(
                objectives[0].direction,
                (#[trigger] members[i]).values[0],
            ) && stairs[s].y == as_loss(objectives[1].direction, members[i].values[1])
    &&& forall|i: int|
        0 <= i < members.len() && as_loss(
            objectives[0].direction,
            (#[trigger] members[i]).values[0],
        ).less(right) && as_loss(objectives[1].direction, members[i].values[1]).less(top)
            ==> exists|s: int|
            0 <= s < stairs.len() && !as_loss(objectives[0].direction, members[i].values[0]).less(
                (#[trigger] stairs[s]).x,
            ) && !as_loss(objectives[1].direction, members[i].values[1]).less(stairs[s].y)
}

/// Whether areas grow by one stair after the other from nothing: each stair adds the rectangle
/// from its corner to the right side and up to its ceiling.
pub open spec fn adds_up<V: Volumes>(
    volumes: &V,
    stairs: Seq<Stair>,
    right: Scalar,
    areas: Seq<Scalar>,
) -> bool {
    &&& areas.len() == stairs.len() + 1
    &&& areas[0].pattern() == 0
    &&& forall|s: int|
        0 <= s < stairs.len() ==> call_ensures(
            V::widened,
            (
                volumes,
                areas[s],
                (#[trigger] stairs[s]).x,
                right,
                stairs[s].y,
                stairs[s].ceiling,
            ),
            areas[s + 1],
        )
}

proof fn area_adds_up<V: Volumes>(
    volumes: &V,
    stairs: Seq<Stair>,
    right: Scalar,
    area: Scalar,
) -> (areas: Seq<Scalar>)
    requires
        is_area(volumes, stairs, right, area),
    ensures
        adds_up(volumes, stairs, right, areas),
        areas.last() == area,
    decreases stairs.len(),
{
    if stairs.len() == 0 {
        seq![area]
    } else {
        let before = choose|before: Scalar|
            is_area(volumes, stairs.drop_last(), right, before) && #[trigger] is_widened(
                volumes,
                before,
                stairs.last(),
                right,
                area,
            );
        let areas = area_adds_up(volumes, stairs.drop_last(), right, before);
        let all = areas.push(area);
        assert forall|s: int| 0 <= s < stairs.len() implies call_ensures(
            V::widened,
            (volumes, all[s], (#[trigger] stairs[s]).x, right, stairs[s].y, stairs[s].ceiling),
            all[s + 1],
        ) by {
            if s < stairs.len() - 1 {
                assert(stairs.drop_last()[s] == stairs[s]);
            }
        }
        all
    }
}

proof fn staircase_traces(
    objectives: Seq<ObjectiveModel>,
    members: Seq<MemberModel>,
    corner: Seq<Scalar>,
    stairs: Seq<Stair>,
)
    requires
        objectives.len() == 2,
        is_staircase(member_losses(objectives, members), corner, stairs),
    ensures
        trace(objectives, members, corner[0], corner[1], stairs),
{
    let all = member_losses(objectives, members);
    let right = corner[0];
    let top = corner[1];
    let inside = models::pick(all, if_inside(corner));
    let p = choose|p: Seq<usize>| #[trigger]
        order::is_ranking(lefts(inside), Direction::Minimize, p) && stairs == stairs_of(
            Seq::new(p.len(), |i: int| inside[p[i] as int]),
            top,
        );
    let walked = Seq::new(p.len(), |i: int| inside[p[i] as int]);
    assert forall|i: int| 0 <= i < inside.len() implies (#[trigger] inside[i]).0.less(right)
        && inside[i].1.less(top) by {
        let m = models::pick_origin(all, if_inside(corner), i);
    }
    assert forall|i: int| 0 <= i < walked.len() implies !(#[trigger] walked[i]).0.nan()
        && walked[i].0.less(right) && walked[i].1.less(top) by {
        assert(inside[p[i] as int].0.less(right));
    }
    assert(order::all_numbers(lefts(inside))) by {
        assert forall|i: int| 0 <= i < inside.len() implies !(
        #[trigger] lefts(inside)[i]).nan() by {
            assert(inside[i].0.less(right));
        }
    }
    assert forall|i: int, j: int| 0 <= i <= j < walked.len() implies (
    #[trigger] walked[i]).0.key() <= (#[trigger] walked[j]).0.key() by {
        if i < j {
            order::law_rankings_put_the_better_first(lefts(inside), Direction::Minimize, p, i, j);
            assert(!walked[j].0.less(walked[i].0));
        }
    }
    assert(trace(objectives, members, right, top, stairs)) by {
        assert forall|s: int| 0 <= s < stairs.len() implies (#[trigger] stairs[s]).x.less(right)
            && stairs[s].y.less(stairs[s].ceiling) && stairs[s].ceiling == (if s == 0 {
            top
        } else {
            stairs[s - 1].y
        }) && exists|i: int|
            0 <= i < members.len() && stairs[s].x == as_loss(
                objectives[0].direction,
                (#[trigger] members[i]).values[0],
            ) && stairs[s].y == as_loss(objectives[1].direction, members[i].values[1]) by {
            law_staircase_descends(walked, top, s);
            if walked.len() > 0 {
                stairs_cover(walked, top, 0);
            }
            let at = (stairs[s].x, stairs[s].y);
            assert(walked.contains(at));
            let k = choose|k: int| 0 <= k < walked.len() && walked[k] == at;
            let m = models::pick_origin(all, if_inside(corner), p[k] as int);
            assert(all[m] == losses(objectives, members[m].values));
            assert(stairs[s].x == as_loss(objectives[0].direction, members[m].values[0]));
        }
        assert forall|i: int|
            0 <= i < members.len() && as_loss(
                objectives[0].direction,
                (#[trigger] members[i]).values[0],
            ).less(right) && as_loss(objectives[1].direction, members[i].values[1]).less(
                top,
            ) implies exists|s: int|
            0 <= s < stairs.len() && !as_loss(objectives[0].direction, members[i].values[0]).less(
                (#[trigger] stairs[s]).x,
            ) && !as_loss(objectives[1].direction, members[i].values[1]).less(stairs[s].y) by {
            let j = models::pick_holds(all, if_inside(corner), i);
            order::permutation_is_onto(p, inside.len() as int, j);
            let k = choose|k: int| 0 <= k < p.len() && #[trigger] p[k] == j;
            assert(walked[k] == (all[i][0], all[i][1]));
            stairs_cover(walked, top, k);
        }
    }
}

/// The hypervolume of two objectives is the area under the staircase of the front: the rectangles
/// that the members inside the reference box add, one after the other.
pub proof fn law_area_lies_under_the_front<V: Volumes>(
    volumes: &V,
    objectives: Seq<ObjectiveModel>,
    members: Seq<MemberModel>,
    reference: Metrics,
    r: Scalar,
)
    requires
        is_hypervolume(volumes, objectives, members, reference, r),
        pareto::has_all(objectives, reference),
        members.len() > 0,
        objectives.len() == 2,
    ensures
        exists|stairs: Seq<Stair>, areas: Seq<Scalar>|
            trace(
                objectives,
                members,
                as_loss(objectives[0].direction, reference[objectives[0].name]),
                as_loss(objectives[1].direction, reference[objectives[1].name]),
                stairs,
            ) && #[trigger] adds_up(
                volumes,
                stairs,
                as_loss(objectives[0].direction, reference[objectives[0].name]),
                areas,
            ) && areas.last() == r,
{
    let o = choose|o: Outline| #[trigger]
        is_outline(objectives, members, reference, o) && is_measure(volumes, o, r);
    let all = member_losses(objectives, members);
    let corner = losses(objectives, pareto::values_of(objectives, reference));
    let stairs = o->stairs@;
    let right = corner[0];
    let top = corner[1];
    staircase_traces(objectives, members, corner, stairs);
    let areas = area_adds_up(volumes, stairs, right, r);
    assert(adds_up(volumes, stairs, right, areas));
}

} // verus!
