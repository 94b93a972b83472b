//! The Pareto front: the core object for multi-objective optimization.
//!
//! A point `a` dominates `b` when `a` is at least as good as `b` on every objective and strictly
//! better on at least one, judged per that objective's direction. The front keeps only mutually
//! non-dominated members.

use vstd::prelude::*;
use crate::metrics::{NamedMetrics, Objective, ObjectiveModel};
use crate::scalar::Scalar;
use crate::trial::{Metrics, TrialId};
#[allow(unused_imports)]
use crate::models;
#[allow(unused_imports)]
use crate::order;
#[allow(unused_imports)]
use crate::trial;

verus! {

/// One member of the front: a trial and its objective values (in objective order).
#[derive(Debug)]
pub struct Member {
    /// The trial this point came from.
    pub trial: TrialId,
    /// Objective values aligned to the front's objective order.
    pub values: Vec<Scalar>,
}

/// What a [`Member`] stands for in contracts.
pub struct MemberModel {
    /// The trial this point came from.
    pub trial: TrialId,
    /// Objective values in objective order.
    pub values: Seq<Scalar>,
}

impl View for Member {
    type V = MemberModel;

    open spec fn view(&self) -> MemberModel {
        MemberModel { trial: self.trial, values: self.values@ }
    }
}

/// `a` is no worse than `b` anywhere and better somewhere.
pub open spec fn dominates_on(
    objectives: Seq<ObjectiveModel>,
    a: Seq<Scalar>,
    b: Seq<Scalar>,
) -> bool {
    &&& forall|i: int|
        0 <= i < objectives.len() ==> !(#[trigger] objectives[i]).direction.better(b[i], a[i])
    &&& exists|i: int|
        0 <= i < objectives.len() && (#[trigger] objectives[i]).direction.better(a[i], b[i])
}

/// `a` and `b` are the same numbers throughout.
pub open spec fn same_point(a: Seq<Scalar>, b: Seq<Scalar>) -> bool {
    a.len() == b.len() && forall|i: int| 0 <= i < a.len() ==> (#[trigger] a[i]).same(b[i])
}

/// Whether `metrics` has a value for every objective.
pub open spec fn has_all(objectives: Seq<ObjectiveModel>, metrics: Metrics) -> bool {
    forall|i: int|
        0 <= i < objectives.len() ==> metrics.contains_key((#[trigger] objectives[i]).name)
}

/// The values of `metrics` in objective order.
pub open spec fn values_of(objectives: Seq<ObjectiveModel>, metrics: Metrics) -> Seq<Scalar> {
    Seq::new(objectives.len(), |i: int| metrics[objectives[i].name])
}

/// `m` already covers the point `v`: it is the same point or dominates it.
pub open spec fn covers(
    objectives: Seq<ObjectiveModel>,
    m: Seq<Scalar>,
    v: Seq<Scalar>,
) -> bool {
    same_point(m, v) || dominates_on(objectives, m, v)
}

/// Some member covers the point `v`.
pub open spec fn covered(
    objectives: Seq<ObjectiveModel>,
    members: Seq<MemberModel>,
    v: Seq<Scalar>,
) -> bool {
    exists|i: int|
        0 <= i < members.len() && covers(objectives, (#[trigger] members[i]).values, v)
}

/// Selects members that `v` does not dominate.
pub open spec fn unless_dominated(
    objectives: Seq<ObjectiveModel>,
    v: Seq<Scalar>,
) -> spec_fn(MemberModel) -> Option<MemberModel> {
    |m: MemberModel|
        if dominates_on(objectives, v, m.values) {
            None
        } else {
            Some(m)
        }
}

/// The front after `v` was offered by `trial`.
pub open spec fn offered(
    objectives: Seq<ObjectiveModel>,
    members: Seq<MemberModel>,
    trial: TrialId,
    v: Seq<Scalar>,
) -> Seq<MemberModel> {
    if covered(objectives, members, v) {
        members
    } else {
        models::pick(members, unless_dominated(objectives, v)).push(
            (MemberModel { trial, values: v }),
        )
    }
}

/// Whether no member dominates another, no two are the same point, and all have one value per
/// objective.
pub open spec fn mutually_non_dominated(
    objectives: Seq<ObjectiveModel>,
    members: Seq<MemberModel>,
) -> bool {
    &&& forall|i: int|
        0 <= i < members.len() ==> (#[trigger] members[i]).values.len() == objectives.len()
    &&& forall|i: int, j: int|
        0 <= i < members.len() && 0 <= j < members.len() ==> !dominates_on(
            objectives,
            (#[trigger] members[i]).values,
            (#[trigger] members[j]).values,
        )
    &&& forall|i: int, j: int|
        0 <= i < j < members.len() ==> !same_point(
            (#[trigger] members[i]).values,
            (#[trigger] members[j]).values,
        )
}

/// Nothing dominates itself.
pub proof fn law_dominance_is_irreflexive(objectives: Seq<ObjectiveModel>, a: Seq<Scalar>)
    ensures
        !dominates_on(objectives, a, a),
{
}

/// Two points never dominate each other.
pub proof fn law_dominance_is_asymmetric(
    objectives: Seq<ObjectiveModel>,
    a: Seq<Scalar>,
    b: Seq<Scalar>,
)
    requires
        dominates_on(objectives, a, b),
    ensures
        !dominates_on(objectives, b, a),
{
    let i = choose|i: int|
        0 <= i < objectives.len() && (#[trigger] objectives[i]).direction.better(a[i], b[i]);
    assert(objectives[i].direction.better(a[i], b[i]));
}

/// Among numbers, dominance is transitive, also through an equal point.
pub proof fn law_dominance_is_transitive(
    objectives: Seq<ObjectiveModel>,
    a: Seq<Scalar>,
    b: Seq<Scalar>,
    c: Seq<Scalar>,
)
    requires
        a.len() == objectives.len(),
        b.len() == objectives.len(),
        c.len() == objectives.len(),
        order::all_numbers(a),
        order::all_numbers(b),
        order::all_numbers(c),
        covers(objectives, a, b),
        covers(objectives, b, c),
    ensures
        covers(objectives, a, c),
        dominates_on(objectives, a, b) || dominates_on(objectives, b, c) ==> dominates_on(
            objectives,
            a,
            c,
        ),
{
    assert forall|i: int|
        0 <= i < objectives.len() implies !(#[trigger] objectives[i]).direction.better(
        c[i],
        a[i],
    ) by {
        let d = objectives[i].direction;
        assert(!d.better(b[i], a[i])) by {
            if same_point(a, b) {
                assert(a[i].same(b[i]));
            }
        }
        assert(!d.better(c[i], b[i])) by {
            if same_point(b, c) {
                assert(b[i].same(c[i]));
            }
        }
        assert(!a[i].nan() && !b[i].nan() && !c[i].nan());
    }
    if dominates_on(objectives, a, b) {
        let i = choose|i: int|
            0 <= i < objectives.len() && (#[trigger] objectives[i]).direction.better(a[i], b[i]);
        let d = objectives[i].direction;
        assert(!d.better(c[i], b[i])) by {
            if same_point(b, c) {
                assert(b[i].same(c[i]));
            }
        }
        assert(!a[i].nan() && !b[i].nan() && !c[i].nan());
        assert(d.better(a[i], c[i]));
    } else if dominates_on(objectives, b, c) {
        let i = choose|i: int|
            0 <= i < objectives.len() && (#[trigger] objectives[i]).direction.better(b[i], c[i]);
        let d = objectives[i].direction;
        assert(!d.better(b[i], a[i])) by {
            assert(a[i].same(b[i]));
        }
        assert(!a[i].nan() && !b[i].nan() && !c[i].nan());
        assert(d.better(a[i], c[i]));
    } else {
        assert forall|i: int| 0 <= i < a.len() implies (#[trigger] a[i]).same(c[i]) by {
            assert(a[i].same(b[i]));
            assert(b[i].same(c[i]));
        }
    }
}

/// Offering a point keeps the members mutually non-dominated, and each point once.
pub proof fn law_front_stays_non_dominated(
    objectives: Seq<ObjectiveModel>,
    members: Seq<MemberModel>,
    trial: TrialId,
    v: Seq<Scalar>,
)
    requires
        mutually_non_dominated(objectives, members),
        v.len() == objectives.len(),
    ensures
        mutually_non_dominated(objectives, offered(objectives, members, trial, v)),
{
    if !covered(objectives, members, v) {
        let f = unless_dominated(objectives, v);
        let kept = models::pick(members, f);
        let after = kept.push((MemberModel { trial, values: v }));
        assert forall|i: int| 0 <= i < kept.len() implies members.contains(#[trigger] kept[i])
            && !dominates_on(objectives, v, kept[i].values) by {
            let k = models::pick_origin(members, f, i);
        }
        assert forall|i: int, j: int|
            0 <= i < after.len() && 0 <= j < after.len() implies !dominates_on(
            objectives,
            (#[trigger] after[i]).values,
            (#[trigger] after[j]).values,
        ) by {
            if i < kept.len() {
                assert(members.contains(kept[i]));
                let k = members.index_of(kept[i]);
                if j < kept.len() {
                    assert(members.contains(kept[j]));
                    let l = members.index_of(kept[j]);
                    assert(!dominates_on(objectives, members[k].values, members[l].values));
                } else {
                    assert(!covers(objectives, members[k].values, v));
                }
            } else if j < kept.len() {
                assert(members.contains(kept[j]));
            } else {
                law_dominance_is_irreflexive(objectives, v);
            }
        }
        assert forall|i: int, j: int| 0 <= i < j < after.len() implies !same_point(
            (#[trigger] after[i]).values,
            (#[trigger] after[j]).values,
        ) by {
            if j < kept.len() {
                let (k, l) = models::pick_origins(members, f, i, j);
                assert(!same_point(members[k].values, members[l].values));
            } else {
                let k = models::pick_origin(members, f, i);
                assert(!covers(objectives, members[k].values, v));
            }
        }
        assert forall|i: int| 0 <= i < after.len() implies (#[trigger] after[i]).values.len()
            == objectives.len() by {
            if i < kept.len() {
                assert(members.contains(kept[i]));
                let k = members.index_of(kept[i]);
                assert(members[k].values.len() == objectives.len());
            }
        }
    }
}

/// Nothing offered is ever lost: among numbers, a point that the front covers stays covered
/// whatever is offered next, and the offered point itself is covered.
pub proof fn law_front_keeps_covering(
    objectives: Seq<ObjectiveModel>,
    members: Seq<MemberModel>,
    trial: TrialId,
    v: Seq<Scalar>,
    w: Seq<Scalar>,
)
    requires
        v.len() == objectives.len(),
        w.len() == objectives.len(),
        order::all_numbers(v),
        order::all_numbers(w),
        forall|i: int|
            0 <= i < members.len() ==> (#[trigger] members[i]).values.len() == objectives.len()
                && order::all_numbers(members[i].values),
    ensures
        covered(objectives, offered(objectives, members, trial, v), v),
        covered(objectives, members, w) ==> covered(
            objectives,
            offered(objectives, members, trial, v),
            w,
        ),
{
    let after = offered(objectives, members, trial, v);
    if !covered(objectives, members, v) {
        let f = unless_dominated(objectives, v);
        let kept = models::pick(members, f);
        let last = after.len() - 1;
        assert(after[last].values == v);
        assert(same_point(v, v)) by {
            assert forall|i: int| 0 <= i < v.len() implies (#[trigger] v[i]).same(v[i]) by {}
        }
        assert(covers(objectives, after[last].values, v));
        if covered(objectives, members, w) {
            let i = choose|i: int|
                0 <= i < members.len() && covers(objectives, (#[trigger] members[i]).values, w);
            if dominates_on(objectives, v, members[i].values) {
                law_dominance_is_transitive(objectives, v, members[i].values, w);
                assert(covers(objectives, after[last].values, w));
            } else {
                let k = models::pick_holds(members, f, i);
                assert(after[k] == members[i]);
                assert(covers(objectives, after[k].values, w));
            }
        }
    }
}

/// The non-dominated set under a multi-objective study.
#[derive(Debug)]
pub struct ParetoFront {
    objectives: Vec<Objective>,
    members: Vec<Member>,
}

/// Copies a list of scalars.
pub fn clone_scalars(items: &Vec<Scalar>) -> (r: Vec<Scalar>)
    ensures
        r@ == items@,
{
    let mut out: Vec<Scalar> = Vec::new();
    let mut i: usize = 0;
    while i < items.len()
        invariant
            i <= items@.len(),
            out@.len() == i,
            forall|k: int| 0 <= k < i ==> out@[k] == items@[k],
        decreases items@.len() - i,
    {
        out.push(items[i]);
        i += 1;
    }
    proof {
        assert(out@ =~= items@);
    }
    out
}

fn dominates_values(objectives: &Vec<Objective>, a: &Vec<Scalar>, b: &Vec<Scalar>) -> (r: bool)
    requires
        a@.len() == objectives@.len(),
        b@.len() == objectives@.len(),
    ensures
        r == dominates_on(models::of(objectives@), a@, b@),
{
    let mut strictly_better_somewhere = false;
    let mut i: usize = 0;
    let ghost objs = models::of(objectives@);
    while i < objectives.len()
        invariant
            i <= objectives@.len(),
            a@.len() == objectives@.len(),
            b@.len() == objectives@.len(),
            objs == models::of(objectives@),
            forall|k: int| 0 <= k < i ==> !(#[trigger] objs[k]).direction.better(b@[k], a@[k]),
            strictly_better_somewhere == exists|k: int|
                0 <= k < i && (#[trigger] objs[k]).direction.better(a@[k], b@[k]),
        decreases objectives@.len() - i,
    {
        let d = objectives[i].direction;
        proof {
            assert(objs[i as int].direction == d);
        }
        if d.is_better(b[i], a[i]) {
            return false;
        }
        if d.is_better(a[i], b[i]) {
            strictly_better_somewhere = true;
        }
        i += 1;
    }
    strictly_better_somewhere
}

fn same_values(a: &Vec<Scalar>, b: &Vec<Scalar>) -> (r: bool)
    ensures
        r == same_point(a@, b@),
{
    if a.len() != b.len() {
        return false;
    }
    let mut i: usize = 0;
    while i < a.len()
        invariant
            i <= a@.len(),
            a@.len() == b@.len(),
            forall|k: int| 0 <= k < i ==> (#[trigger] a@[k]).same(b@[k]),
        decreases a@.len() - i,
    {
        if !a[i].equals(&b[i]) {
            return false;
        }
        i += 1;
    }
    true
}

/// Extract objective values from a metrics bag, or `None` if any objective is missing.
pub fn extract(objectives: &Vec<Objective>, metrics: &NamedMetrics) -> (r: Option<Vec<Scalar>>)
    ensures
        match r {
            Some(v) => has_all(models::of(objectives@), metrics@) && v@ == values_of(
                models::of(objectives@),
                metrics@,
            ),
            None => !has_all(models::of(objectives@), metrics@),
        },
{
    let mut out: Vec<Scalar> = Vec::new();
    let mut i: usize = 0;
    let ghost objs = models::of(objectives@);
    while i < objectives.len()
        invariant
            i <= objectives@.len(),
            out@.len() == i,
            objs == models::of(objectives@),
            forall|k: int|
                0 <= k < i ==> metrics@.contains_key((#[trigger] objs[k]).name) && out@[k]
                    == metrics@[objs[k].name],
        decreases objectives@.len() - i,
    {
        proof {
            assert(objs[i as int].name == objectives@[i as int].name@);
        }
        match metrics.get(objectives[i].name.as_str()) {
            Some(v) => {
                out.push(v);
            },
            None => {
                return None;
            },
        }
        i += 1;
    }
    proof {
        assert(out@ =~= values_of(objs, metrics@));
    }
    Some(out)
}

impl ParetoFront {
    /// The objectives this front ranks by.
    pub closed spec fn ranks_by(self) -> Seq<ObjectiveModel> {
        models::of(self.objectives@)
    }

    /// The members of the front.
    pub closed spec fn front(self) -> Seq<MemberModel> {
        models::of(self.members@)
    }

    /// No member dominates another, and no two are the same point.
    pub open spec fn well_formed(self) -> bool {
        mutually_non_dominated(self.ranks_by(), self.front())
    }

    #[verifier::type_invariant]
    spec fn non_dominated(self) -> bool {
        self.well_formed()
    }

    /// A new, empty front over the given objectives (name + direction each).
    pub fn new(objectives: Vec<Objective>) -> (f: Self)
        ensures
            f.ranks_by() == models::of(objectives@),
            f.front() == Seq::<MemberModel>::empty(),
            f.well_formed(),
    {
        let f = ParetoFront { objectives, members: Vec::new() };
        proof {
            assert(f.front() =~= Seq::<MemberModel>::empty());
        }
        f
    }

    /// The objectives this front ranks by.
    pub fn objectives(&self) -> (r: &Vec<Objective>)
        ensures
            models::of(r@) == self.ranks_by(),
    {
        &self.objectives
    }

    /// The current non-dominated members.
    pub fn members(&self) -> (r: &Vec<Member>)
        ensures
            models::of(r@) == self.front(),
            self.well_formed(),
    {
        proof {
            use_type_invariant(self);
        }
        &self.members
    }

    /// The trial ids currently on the front.
    pub fn trial_ids(&self) -> (r: Vec<TrialId>)
        ensures
            r@ == self.front().map_values(|m: MemberModel| m.trial),
    {
        let mut out: Vec<TrialId> = Vec::new();
        let mut i: usize = 0;
        while i < self.members.len()
            invariant
                i <= self.members@.len(),
                out@.len() == i,
                forall|k: int| 0 <= k < i ==> out@[k] == (#[trigger] self.members@[k]).trial,
            decreases self.members@.len() - i,
        {
            out.push(self.members[i].trial);
            i += 1;
        }
        proof {
            assert(out@ =~= self.front().map_values(|m: MemberModel| m.trial));
        }
        out
    }

    /// Number of members.
    pub fn len(&self) -> (n: usize)
        ensures
            n == self.front().len(),
    {
        self.members.len()
    }

    /// Whether the front is empty.
    pub fn is_empty(&self) -> (r: bool)
        ensures
            r == (self.front().len() == 0),
    {
        self.members.len() == 0
    }

    /// Whether one metrics bag dominates another; a bag that lacks an objective neither
    /// dominates nor is dominated.
    pub fn dominates(&self, a: &NamedMetrics, b: &NamedMetrics) -> (r: bool)
        ensures
            r == (has_all(self.ranks_by(), a@) && has_all(self.ranks_by(), b@) && dominates_on(
                self.ranks_by(),
                values_of(self.ranks_by(), a@),
                values_of(self.ranks_by(), b@),
            )),
    {
        match (extract(&self.objectives, a), extract(&self.objectives, b)) {
            (Some(av), Some(bv)) => dominates_values(&self.objectives, &av, &bv),
            _ => false,
        }
    }

    /// Offer a trial's metrics to the front. Returns `true` if it was added to the
    /// non-dominated set (removing any members it dominates); `false` if it was dominated by an
    /// existing member, a duplicate, or missing objectives.
    pub fn insert(&mut self, trial: TrialId, metrics: &NamedMetrics) -> (added: bool)
        ensures
            final(self).ranks_by() == old(self).ranks_by(),
            final(self).well_formed(),
            added == (has_all(old(self).ranks_by(), metrics@) && !covered(
                old(self).ranks_by(),
                old(self).front(),
                values_of(old(self).ranks_by(), metrics@),
            )),
            final(self).front() == if has_all(old(self).ranks_by(), metrics@) {
                offered(
                    old(self).ranks_by(),
                    old(self).front(),
                    trial,
                    values_of(old(self).ranks_by(), metrics@),
                )
            } else {
                old(self).front()
            },
    {
        proof {
            use_type_invariant(&*self);
        }
        let values = match extract(&self.objectives, metrics) {
            Some(v) => v,
            None => {
                return false;
            },
        };
        let ghost objs = self.ranks_by();
        let ghost front = self.front();
        let mut i: usize = 0;
        while i < self.members.len()
            invariant
                i <= self.members@.len(),
                *self == *old(self),
                self.well_formed(),
                objs == self.ranks_by(),
                front == self.front(),
                values@.len() == objs.len(),
                values@ == values_of(objs, metrics@),
                has_all(objs, metrics@),
                forall|k: int| 0 <= k < i ==> !covers(objs, (#[trigger] front[k]).values, values@),
            decreases self.members@.len() - i,
        {
            proof {
                assert(front[i as int] == self.members@[i as int]@);
            }
            if same_values(&self.members[i].values, &values) || dominates_values(
                &self.objectives,
                &self.members[i].values,
                &values,
            ) {
                proof {
                    assert(covers(objs, front[i as int].values, values@));
                }
                return false;
            }
            i += 1;
        }
        proof {
            law_front_stays_non_dominated(objs, front, trial, values@);
        }
        let mut members: Vec<Member> = Vec::new();
        std::mem::swap(&mut members, &mut self.members);
        proof {
            assert forall|k: int| 0 <= k < members@.len() implies (#[trigger] members@[k])@.values.len()
                == self.objectives@.len() by {
                assert(front[k] == members@[k]@);
            }
        }
        let mut kept = Self::drop_dominated(&self.objectives, members, &values);
        let ghost pruned = models::of(kept@);
        kept.push(Member { trial, values });
        proof {
            assert(models::of(kept@) =~= pruned.push((MemberModel { trial, values: values@ })));
        }
        self.members = kept;
        true
    }

    /// Removes the members that `values` dominates.
    fn drop_dominated(
        objectives: &Vec<Objective>,
        members: Vec<Member>,
        values: &Vec<Scalar>,
    ) -> (kept: Vec<Member>)
        requires
            values@.len() == objectives@.len(),
            forall|i: int|
                0 <= i < members@.len() ==> (#[trigger] members@[i])@.values.len()
                    == objectives@.len(),
        ensures
            models::of(kept@) == models::pick(
                models::of(members@),
                unless_dominated(models::of(objectives@), values@),
            ),
    {
        let ghost all = models::of(members@);
        let ghost f = unless_dominated(models::of(objectives@), values@);
        let mut kept = members;
        let mut i: usize = 0;
        let ghost mut seen: int = 0;
        proof {
            assert(all.take(0) =~= Seq::<MemberModel>::empty());
        }
        while i < kept.len()
            invariant
                i <= kept@.len(),
                0 <= seen <= all.len(),
                kept@.len() - i == all.len() - seen,
                values@.len() == objectives@.len(),
                f == unless_dominated(models::of(objectives@), values@),
                forall|k: int|
                    0 <= k < all.len() ==> (#[trigger] all[k]).values.len() == objectives@.len(),
                models::pick(all.take(seen), f).len() == i,
                forall|k: int|
                    0 <= k < i ==> (#[trigger] kept@[k])@ == models::pick(all.take(seen), f)[k],
                forall|k: int|
                    i <= k < kept@.len() ==> (#[trigger] kept@[k])@ == all[seen + k - i],
            decreases kept@.len() - i,
        {
            let ghost before = kept@;
            proof {
                models::pick_step(all, seen, f);
                assert(kept@[i as int]@ == all[seen]);
            }
            if dominates_values(objectives, values, &kept[i].values) {
                let _gone = kept.remove(i);
                proof {
                    assert forall|k: int| i <= k < kept@.len() implies (#[trigger] kept@[k])@
                        == all[seen + 1 + k - i] by {
                        assert(kept@[k] == before[k + 1]);
                    }
                    assert forall|k: int| 0 <= k < i implies (#[trigger] kept@[k])@ == models::pick(
                        all.take(seen + 1),
                        f,
                    )[k] by {
                        assert(kept@[k] == before[k]);
                    }
                }
            } else {
                i += 1;
            }
            proof {
                seen = seen + 1;
            }
        }
        proof {
            models::pick_whole(all, f);
            assert(models::of(kept@) =~= models::pick(all, f));
        }
        kept
    }
}

} // verus!
