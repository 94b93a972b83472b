//! Search spaces: ordered parameter definitions with optional conditional gating.
//!
//! Conditions form a DAG rooted at unconditional parameters. A parameter is active for a given
//! [`ParamSet`] iff its condition (if any) is satisfied by already-sampled parent values.
//! Parameters are stored in declaration order, and a parent must be declared before any child
//! that gates on it; [`SearchSpace::validate`] checks this.

use vstd::prelude::*;
use crate::distribution::{invalid, Distribution};
use crate::error::{Error, Reason};
use crate::param::{ParamSet, ParamValue};
#[allow(unused_imports)]
use crate::distribution;
use crate::distribution::DistModel;
#[allow(unused_imports)]
use crate::models;
#[allow(unused_imports)]
use crate::param;
use crate::param::{Assignment, ParamModel};

verus! {

/// A predicate over an already-sampled parent parameter that gates whether a child parameter is
/// active.
#[derive(Debug)]
pub struct Condition {
    /// The parent parameter this condition inspects.
    pub parent: String,
    /// The parent values for which the gated parameter becomes active.
    pub equals: Vec<ParamValue>,
}

/// What a [`Condition`] stands for in contracts.
pub struct ConditionModel {
    /// The parent parameter.
    pub parent: Seq<char>,
    /// The values that meet the condition.
    pub equals: Seq<ParamModel>,
}

impl View for Condition {
    type V = ConditionModel;

    open spec fn view(&self) -> ConditionModel {
        ConditionModel { parent: self.parent@, equals: models::of(self.equals@) }
    }
}

impl ConditionModel {
    /// Whether the condition is met under the values chosen so far.
    pub open spec fn satisfied(self, a: Assignment) -> bool {
        a.contains_key(self.parent) && exists|i: int|
            0 <= i < self.equals.len() && param::equal_values(#[trigger] self.equals[i], a[self.parent])
    }
}

impl Condition {
    /// Active when `parent` equals any of `values`.
    pub fn when_in(parent: &str, values: Vec<ParamValue>) -> (c: Self)
        ensures
            c@ == (ConditionModel { parent: parent@, equals: models::of(values@) }),
    {
        Condition { parent: parent.to_owned(), equals: values }
    }

    /// Active when `parent` equals the given categorical string.
    pub fn when_eq(parent: &str, value: &str) -> (c: Self)
        ensures
            c@ == (ConditionModel {
                parent: parent@,
                equals: seq![ParamModel::Categorical(value@)],
            }),
    {
        let c = Condition {
            parent: parent.to_owned(),
            equals: vec![ParamValue::Categorical(value.to_owned())],
        };
        proof {
            assert(c@.equals =~= seq![ParamModel::Categorical(value@)]);
        }
        c
    }

    /// Evaluate the condition against a (partial) parameter set. A condition whose parent has
    /// not been sampled yet is treated as unsatisfied.
    pub fn is_satisfied(&self, params: &ParamSet) -> (r: bool)
        ensures
            r == self@.satisfied(params@),
    {
        match params.get(self.parent.as_str()) {
            None => false,
            Some(v) => {
                let mut i: usize = 0;
                while i < self.equals.len()
                    invariant
                        i <= self.equals@.len(),
                        params@.contains_key(self.parent@),
                        v@ == params@[self.parent@],
                        forall|k: int|
                            0 <= k < i ==> !param::equal_values(
                                #[trigger] self@.equals[k],
                                params@[self.parent@],
                            ),
                    decreases self.equals@.len() - i,
                {
                    if self.equals[i] == *v {
                        proof {
                            assert(param::equal_values(self@.equals[i as int], params@[self.parent@]));
                        }
                        return true;
                    }
                    i += 1;
                }
                false
            },
        }
    }
}

impl Clone for Condition {
    fn clone(&self) -> (c: Self)
        ensures
            c@ == self@,
    {
        let mut equals: Vec<ParamValue> = Vec::new();
        let mut i: usize = 0;
        while i < self.equals.len()
            invariant
                i <= self.equals@.len(),
                equals@.len() == i,
                forall|k: int| 0 <= k < i ==> equals@[k] == self.equals@[k],
            decreases self.equals@.len() - i,
        {
            equals.push(self.equals[i].clone());
            i += 1;
        }
        proof {
            assert(equals@ =~= self.equals@);
        }
        Condition { parent: self.parent.clone(), equals }
    }
}

/// A single named parameter definition within a search space.
#[derive(Debug)]
pub struct ParamDef {
    /// Unique parameter name within the space.
    pub name: String,
    /// The value space to sample from.
    pub distribution: Distribution,
    /// Optional gate; `None` means always active.
    pub condition: Option<Condition>,
}

/// What a [`ParamDef`] stands for in contracts.
pub struct DefModel {
    /// The parameter name.
    pub name: Seq<char>,
    /// The value space.
    pub dist: DistModel,
    /// The condition, if there is one.
    pub condition: Option<ConditionModel>,
}

impl View for ParamDef {
    type V = DefModel;

    open spec fn view(&self) -> DefModel {
        DefModel {
            name: self.name@,
            dist: self.distribution@,
            condition: match self.condition {
                None => None,
                Some(c) => Some(c@),
            },
        }
    }
}

impl DefModel {
    /// Whether the parameter is active under the values chosen so far.
    pub open spec fn active(self, a: Assignment) -> bool {
        match self.condition {
            None => true,
            Some(c) => c.satisfied(a),
        }
    }
}

/// A parameter that is always active.
pub open spec fn free(name: Seq<char>, dist: DistModel) -> DefModel {
    DefModel { name, dist, condition: None }
}

impl Clone for ParamDef {
    fn clone(&self) -> (d: Self)
        ensures
            d@ == self@,
    {
        ParamDef {
            name: self.name.clone(),
            distribution: self.distribution.clone(),
            condition: match &self.condition {
                None => None,
                Some(c) => Some(c.clone()),
            },
        }
    }
}

/// The model of a search space: its definitions in declaration order.
pub type SpaceModel = Seq<DefModel>;

/// The position of the first definition called `name`, or the length when there is none.
pub open spec fn find_def(defs: SpaceModel, name: Seq<char>) -> int
    decreases defs.len(),
{
    if defs.len() == 0 {
        0
    } else if defs[0].name == name {
        0
    } else {
        1 + find_def(defs.drop_first(), name)
    }
}

/// The first definition called `name` is the first one whose name matches.
pub proof fn find_def_is_first(defs: SpaceModel, name: Seq<char>, at: int)
    requires
        0 <= at <= defs.len(),
        forall|k: int| 0 <= k < at ==> (#[trigger] defs[k]).name != name,
        at < defs.len() ==> defs[at].name == name,
    ensures
        find_def(defs, name) == at,
    decreases defs.len(),
{
    if defs.len() > 0 && at > 0 {
        assert(defs[0].name != name);
        let rest = defs.drop_first();
        assert forall|k: int| 0 <= k < at - 1 implies (#[trigger] rest[k]).name != name by {
            assert(rest[k] == defs[k + 1]);
        }
        find_def_is_first(rest, name, at - 1);
    }
}

/// Whether some definition before `i` is called `name`.
pub open spec fn declared_before(defs: SpaceModel, i: int, name: Seq<char>) -> bool {
    exists|j: int| 0 <= j < i && (#[trigger] defs[j]).name == name
}

/// Whether the parent of a condition can take every value that opens its gate.
pub open spec fn gate_reachable(defs: SpaceModel, c: ConditionModel) -> bool {
    forall|k: int|
        0 <= k < c.equals.len() ==> defs[find_def(defs, c.parent)].dist.member(
            #[trigger] c.equals[k],
        )
}

/// Whether definition `i` is sound among the ones before it.
pub open spec fn def_sound(defs: SpaceModel, i: int) -> bool {
    let d = defs[i];
    &&& d.dist.defect() is None
    &&& !declared_before(defs, i, d.name)
    &&& d.condition matches Some(c) ==> declared_before(defs, i, c.parent) && gate_reachable(
        defs,
        c,
    )
}

/// Whether the space is structurally sound: legal distributions, unique names, and every
/// condition on a parent declared earlier that can take the values it waits for.
pub open spec fn space_sound(defs: SpaceModel) -> bool {
    forall|i: int| 0 <= i < defs.len() ==> #[trigger] def_sound(defs, i)
}

/// Whether definition `i` has a new name and, if it has a condition, its parent comes before it.
pub open spec fn def_ordered(defs: SpaceModel, i: int) -> bool {
    &&& !declared_before(defs, i, defs[i].name)
    &&& defs[i].condition matches Some(c) ==> declared_before(defs, i, c.parent)
}

/// Whether names are unique and every condition has its parent declared earlier: what it takes
/// for a walk through the definitions to settle which parameters are active.
pub open spec fn space_ordered(defs: SpaceModel) -> bool {
    forall|i: int| 0 <= i < defs.len() ==> #[trigger] def_ordered(defs, i)
}

/// A sound space is in order.
pub proof fn law_sound_space_is_ordered(defs: SpaceModel)
    requires
        space_sound(defs),
    ensures
        space_ordered(defs),
{
    assert forall|i: int| 0 <= i < defs.len() implies #[trigger] def_ordered(defs, i) by {
        assert(def_sound(defs, i));
    }
}

/// `e` says that `name` is already taken.
pub open spec fn is_duplicate(e: Error, name: Seq<char>) -> bool {
    e matches Error::InvalidDistribution { name: n, reason } && n@ == name && reason
        is DuplicateName
}

/// `e` is the complaint about definition `i`.
pub open spec fn complains_of(e: Error, defs: SpaceModel, i: int) -> bool {
    let d = defs[i];
    if d.dist.defect() is Some {
        distribution::reports_defect(e, d.name, d.dist.defect()->0)
    } else {
        e matches Error::InvalidDistribution { name, reason } && name@ == d.name && {
            if declared_before(defs, i, d.name) {
                reason is DuplicateName
            } else {
                d.condition matches Some(c) && {
                    if !declared_before(defs, i, c.parent) {
                        reason matches Reason::ParentNotDeclared { parent } && parent@ == c.parent
                    } else {
                        reason matches Reason::GateValueNotInParent { value, parent } && parent@
                            == c.parent && first_unreachable(defs, c, value@)
                    }
                }
            }
        }
    }
}

/// `v` is the first gate value that the parent never takes.
pub open spec fn first_unreachable(defs: SpaceModel, c: ConditionModel, v: ParamModel) -> bool {
    exists|k: int| #[trigger]
        unreachable_at(defs, c, k) && c.equals[k] == v
}

/// The `k`-th gate value is the first that the parent never takes.
pub open spec fn unreachable_at(defs: SpaceModel, c: ConditionModel, k: int) -> bool {
    let dist = defs[find_def(defs, c.parent)].dist;
    &&& 0 <= k < c.equals.len()
    &&& !dist.member(c.equals[k])
    &&& forall|m: int| 0 <= m < k ==> dist.member(#[trigger] c.equals[m])
}

/// An ordered collection of parameter definitions describing a search space.
#[derive(Debug)]
pub struct SearchSpace {
    params: Vec<ParamDef>,
}

impl View for SearchSpace {
    type V = SpaceModel;

    closed spec fn view(&self) -> SpaceModel {
        models::of(self.params@)
    }
}

impl SearchSpace {
    /// An empty search space.
    pub fn new() -> (s: Self)
        ensures
            s@ == SpaceModel::empty(),
    {
        let s = SearchSpace { params: Vec::new() };
        proof {
            assert(s@ =~= SpaceModel::empty());
        }
        s
    }

    /// Appends a definition.
    fn push(&mut self, def: ParamDef)
        ensures
            final(self)@ == old(self)@.push(def@),
    {
        self.params.push(def);
        proof {
            assert(self@ =~= old(self)@.push(def@));
        }
    }

    /// Add an always-active parameter. A duplicate name is reported by
    /// [`SearchSpace::validate`]; prefer [`SearchSpace::try_add`] to surface the error at once.
    pub fn add(self, name: &str, distribution: Distribution) -> (s: Self)
        ensures
            s@ == self@.push(free(name@, distribution@)),
    {
        let mut s = self;
        s.push(ParamDef { name: name.to_owned(), distribution, condition: None });
        s
    }

    /// Add a conditionally-active parameter gated by `condition`.
    pub fn add_conditional(
        self,
        name: &str,
        distribution: Distribution,
        condition: Condition,
    ) -> (s: Self)
        ensures
            s@ == self@.push(
                (DefModel { name: name@, dist: distribution@, condition: Some(condition@) }),
            ),
    {
        let mut s = self;
        s.push(ParamDef { name: name.to_owned(), distribution, condition: Some(condition) });
        s
    }

    /// Fallible push that rejects duplicate names immediately.
    pub fn try_add(&mut self, def: ParamDef) -> (r: Result<(), Error>)
        ensures
            match r {
                Ok(_) => !declared_before(old(self)@, old(self)@.len() as int, def@.name)
                    && final(self)@ == old(self)@.push(def@),
                Err(e) => declared_before(old(self)@, old(self)@.len() as int, def@.name)
                    && final(self)@ == old(self)@ && is_duplicate(e, def@.name),
            },
    {
        if self.get(def.name.as_str()).is_some() {
            return Err(invalid(def.name.as_str(), Reason::DuplicateName));
        }
        self.push(def);
        Ok(())
    }

    /// All parameter definitions in declaration order.
    pub fn params(&self) -> (r: &Vec<ParamDef>)
        ensures
            models::of(r@) == self@,
            r@.len() == self@.len(),
            forall|i: int| 0 <= i < r@.len() ==> (#[trigger] r@[i])@ == self@[i],
    {
        &self.params
    }

    /// The position of the first definition called `name`.
    fn position(&self, name: &str) -> (at: usize)
        ensures
            at <= self@.len(),
            at == find_def(self@, name@),
            forall|k: int| 0 <= k < at ==> (#[trigger] self@[k]).name != name@,
            at < self@.len() ==> self@[at as int].name == name@,
    {
        let mut i: usize = 0;
        while i < self.params.len()
            invariant
                i <= self@.len(),
                self@.len() == self.params@.len(),
                forall|k: int| 0 <= k < i ==> (#[trigger] self@[k]).name != name@,
            decreases self.params@.len() - i,
        {
            if crate::text::same_text(self.params[i].name.as_str(), name) {
                proof {
                    find_def_is_first(self@, name@, i as int);
                }
                return i;
            }
            i += 1;
        }
        proof {
            find_def_is_first(self@, name@, i as int);
        }
        i
    }

    /// Look up a parameter definition by name.
    pub fn get(&self, name: &str) -> (r: Option<&ParamDef>)
        ensures
            r is Some <==> declared_before(self@, self@.len() as int, name@),
            r is Some <==> find_def(self@, name@) < self@.len(),
            r matches Some(d) ==> d@ == self@[find_def(self@, name@)] && d@.name == name@,
    {
        let at = self.position(name);
        if at < self.params.len() {
            Some(&self.params[at])
        } else {
            None
        }
    }

    /// Whether every distribution of the space can be drawn from.
    pub fn is_drawable(&self) -> (r: bool)
        ensures
            r == drawable_space(self@),
    {
        let mut i: usize = 0;
        while i < self.params.len()
            invariant
                i <= self@.len(),
                self@.len() == self.params@.len(),
                forall|k: int| 0 <= k < i ==> (#[trigger] self@[k]).dist.drawable(),
            decreases self.params@.len() - i,
        {
            proof {
                assert(self@[i as int] == self.params@[i as int]@);
            }
            if !self.params[i].distribution.is_drawable() {
                return false;
            }
            i += 1;
        }
        true
    }

    /// Number of parameter definitions (active or not).
    pub fn len(&self) -> (n: usize)
        ensures
            n == self@.len(),
    {
        self.params.len()
    }

    /// Whether the space has no parameters.
    pub fn is_empty(&self) -> (r: bool)
        ensures
            r == (self@.len() == 0),
    {
        self.params.len() == 0
    }

    /// Whether `def` is active given the values sampled so far.
    pub fn is_active(def: &ParamDef, params: &ParamSet) -> (r: bool)
        ensures
            r == def@.active(params@),
    {
        match &def.condition {
            None => true,
            Some(c) => c.is_satisfied(params),
        }
    }

    /// Whether a definition before `i` is called `name`.
    fn is_declared_before(&self, i: usize, name: &str) -> (r: bool)
        requires
            i <= self@.len(),
        ensures
            r == declared_before(self@, i as int, name@),
    {
        let at = self.position(name);
        at < i
    }

    /// Validate structural integrity of the space: every distribution has legal bounds, names
    /// are unique, and each condition references a parent declared earlier whose distribution
    /// can take the values it waits for. The complaint is about the first definition that is not sound.
    pub fn validate(&self) -> (r: Result<(), Error>)
        ensures
            r is Ok <==> space_sound(self@),
            r matches Err(e) ==> exists|i: int| #[trigger]
                is_first_unsound(self@, i) && complains_of(e, self@, i),
    {
        let mut i: usize = 0;
        while i < self.params.len()
            invariant
                i <= self@.len(),
                self@.len() == self.params@.len(),
                forall|k: int| 0 <= k < i ==> #[trigger] def_sound(self@, k),
            decreases self.params@.len() - i,
        {
            match self.validate_def(i) {
                Ok(_) => {},
                Err(e) => {
                    proof {
                        assert(is_first_unsound(self@, i as int));
                    }
                    return Err(e);
                },
            }
            i += 1;
        }
        Ok(())
    }

    fn validate_def(&self, i: usize) -> (r: Result<(), Error>)
        requires
            i < self@.len(),
        ensures
            r is Ok <==> def_sound(self@, i as int),
            r matches Err(e) ==> complains_of(e, self@, i as int),
    {
        let def = &self.params[i];
        proof {
            assert(def@ == self@[i as int]);
        }
        match def.distribution.validate(def.name.as_str()) {
            Ok(_) => {},
            Err(e) => {
                return Err(e);
            },
        }
        if self.is_declared_before(i, def.name.as_str()) {
            return Err(invalid(def.name.as_str(), Reason::DuplicateName));
        }
        if let Some(c) = &def.condition {
            if !self.is_declared_before(i, c.parent.as_str()) {
                return Err(
                    invalid(
                        def.name.as_str(),
                        Reason::ParentNotDeclared { parent: c.parent.clone() },
                    ),
                );
            }
            if let Some(parent) = self.get(c.parent.as_str()) {
                let mut k: usize = 0;
                while k < c.equals.len()
                    invariant
                        k <= c.equals@.len(),
                        i < self@.len(),
                        def@ == self@[i as int],
                        def@.condition == Some(c@),
                        def@.dist.defect() is None,
                        !declared_before(self@, i as int, def@.name),
                        declared_before(self@, i as int, c@.parent),
                        parent@ == self@[find_def(self@, c@.parent)],
                        forall|m: int| 0 <= m < k ==> parent@.dist.member(#[trigger] c@.equals[m]),
                    decreases c.equals@.len() - k,
                {
                    if !parent.distribution.contains(&c.equals[k]) {
                        proof {
                            assert(unreachable_at(self@, c@, k as int));
                            assert(!parent@.dist.member(c@.equals[k as int]));
                        }
                        return Err(
                            invalid(
                                def.name.as_str(),
                                Reason::GateValueNotInParent {
                                    value: c.equals[k].clone(),
                                    parent: c.parent.clone(),
                                },
                            ),
                        );
                    }
                    k += 1;
                }
            }
        }
        Ok(())
    }
}

/// Definition `i` is the first that is not sound.
pub open spec fn is_first_unsound(defs: SpaceModel, i: int) -> bool {
    &&& 0 <= i < defs.len()
    &&& !def_sound(defs, i)
    &&& forall|k: int| 0 <= k < i ==> #[trigger] def_sound(defs, k)
}

impl Clone for SearchSpace {
    fn clone(&self) -> (s: Self)
        ensures
            s@ == self@,
    {
        let mut params: Vec<ParamDef> = Vec::new();
        let mut i: usize = 0;
        while i < self.params.len()
            invariant
                i <= self.params@.len(),
                params@.len() == i,
                forall|k: int| 0 <= k < i ==> (#[trigger] params@[k])@ == self.params@[k]@,
            decreases self.params@.len() - i,
        {
            params.push(self.params[i].clone());
            i += 1;
        }
        let s = SearchSpace { params };
        proof {
            assert(s@ =~= self@);
        }
        s
    }
}

impl Default for SearchSpace {
    fn default() -> (s: Self)
        ensures
            s@ == SpaceModel::empty(),
    {
        SearchSpace::new()
    }
}

/// Whether every distribution of the space can be drawn from.
pub open spec fn drawable_space(defs: SpaceModel) -> bool {
    forall|i: int| 0 <= i < defs.len() ==> (#[trigger] defs[i]).dist.drawable()
}

/// Whether `a` assigns exactly the active parameters among the first `n` definitions.
pub open spec fn exact_prefix(defs: SpaceModel, n: int, a: Assignment) -> bool {
    &&& forall|name: Seq<char>| #[trigger]
        a.contains_key(name) ==> exists|i: int|
            0 <= i < n && (#[trigger] defs[i]).name == name && defs[i].active(a)
    &&& forall|i: int|
        0 <= i < n && (#[trigger] defs[i]).active(a) ==> a.contains_key(defs[i].name)
}

/// Whether the values of `a` fit the first `n` definitions.
pub open spec fn fits_prefix(defs: SpaceModel, n: int, a: Assignment) -> bool {
    forall|i: int|
        0 <= i < n && (#[trigger] defs[i]).active(a) ==> defs[i].dist.fits(a[defs[i].name])
}

/// Whether `a` assigns exactly the active parameters of a space.
pub open spec fn exactly_active(defs: SpaceModel, a: Assignment) -> bool {
    exact_prefix(defs, defs.len() as int, a)
}

/// Whether `a` assigns exactly the active parameters of a space, each a value that fits its
/// distribution.
pub open spec fn legal(defs: SpaceModel, a: Assignment) -> bool {
    exactly_active(defs, a) && fits_prefix(defs, defs.len() as int, a)
}

/// Whether every value of `a` fits the definition of its name.
pub open spec fn values_fit(defs: SpaceModel, a: Assignment) -> bool {
    forall|i: int|
        0 <= i < defs.len() && a.contains_key((#[trigger] defs[i]).name) ==> defs[i].dist.fits(
            a[defs[i].name],
        )
}

/// Whether the widened ends of every float range hold it.
pub open spec fn bounds_sound(defs: SpaceModel) -> bool {
    forall|i: int|
        0 <= i < defs.len() ==> ((#[trigger] defs[i]).dist matches DistModel::Float { bounds, .. }
            ==> bounds.sound())
}

/// A legal assignment holds, for every active parameter, a member of its distribution.
pub proof fn law_legal_values_are_members(defs: SpaceModel, a: Assignment, i: int)
    requires
        legal(defs, a),
        bounds_sound(defs),
        0 <= i < defs.len(),
        defs[i].active(a),
    ensures
        a.contains_key(defs[i].name),
        defs[i].dist.member(a[defs[i].name]),
{
}

/// In an ordered space a child is judged by its parent alone: values chosen after it, under other
/// names, never change whether it is active.
pub proof fn law_activity_is_settled(defs: SpaceModel, i: int, a: Assignment, b: Assignment)
    requires
        space_ordered(defs),
        0 <= i < defs.len(),
        forall|j: int|
            0 <= j < i ==> a.contains_key((#[trigger] defs[j]).name) == b.contains_key(defs[j].name)
                && (a.contains_key(defs[j].name) ==> a[defs[j].name] == b[defs[j].name]),
    ensures
        defs[i].active(a) == defs[i].active(b),
{
    assert(def_ordered(defs, i));
    match defs[i].condition {
        None => {},
        Some(c) => {
            let j = choose|j: int| 0 <= j < i && (#[trigger] defs[j]).name == c.parent;
            assert(a.contains_key(defs[j].name) == b.contains_key(defs[j].name));
        },
    }
}

/// A parameter is active where it has no condition, or where its parent has one of the values that
/// the condition names.
pub proof fn law_parameters_open_by_the_values_of_their_parents(def: DefModel, a: Assignment)
    ensures
        def.condition is None ==> def.active(a),
        def.condition matches Some(c) ==> (def.active(a) ==> a.contains_key(c.parent)) && (
        a.contains_key(c.parent) && c.equals.contains(a[c.parent]) && (a[c.parent] matches
            ParamModel::Float(x) ==> !x.nan()) ==> def.active(a)),
        def.condition matches Some(c) ==> (def.active(a) && !(a[c.parent] is Float)
            ==> c.equals.contains(a[c.parent])),
{
    if let Some(c) = def.condition {
        if a.contains_key(c.parent) && c.equals.contains(a[c.parent]) {
            let i = choose|i: int| 0 <= i < c.equals.len() && c.equals[i] == a[c.parent];
            assert(c.equals[i] == a[c.parent]);
        }
    }
}

/// A sound space names each parameter once, and a condition looks back: its parent was declared
/// before, and can take every value that the condition names.
pub proof fn law_sound_spaces_look_back(defs: SpaceModel, i: int, j: int)
    requires
        space_sound(defs),
        0 <= i < j < defs.len(),
    ensures
        defs[i].name != defs[j].name,
        defs[j].dist.defect() is None,
        defs[j].condition matches Some(c) ==> exists|k: int|
            0 <= k < j && (#[trigger] defs[k]).name == c.parent && forall|x: int|
                0 <= x < c.equals.len() ==> defs[k].dist.member(#[trigger] c.equals[x]),
{
    assert(def_sound(defs, j));
    if defs[i].name == defs[j].name {
        assert(declared_before(defs, j, defs[j].name));
    }
    if let Some(c) = defs[j].condition {
        let k = choose|k: int| 0 <= k < j && (#[trigger] defs[k]).name == c.parent;
        assert(def_sound(defs, k));
        assert forall|x: int| 0 <= x < k implies (#[trigger] defs[x]).name != c.parent by {
            if defs[x].name == c.parent {
                assert(declared_before(defs, k, defs[k].name));
            }
        }
        find_def_is_first(defs, c.parent, k);
    }
}

} // verus!
