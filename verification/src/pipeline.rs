//! Pipeline composition: searching complete pipelines, not just a model's hyperparameters.
//!
//! A [`PipelineSpace`] is an ordered list of [`Stage`]s; each stage offers candidate
//! [`Component`]s, and each component carries its own hyperparameters, active only when that
//! component is selected. The pipeline is lowered to a flat conditional [`SearchSpace`], and a
//! sampled assignment is lifted back to a [`PipelinePlan`].

use vstd::prelude::*;
use crate::distribution::{Distribution, DistModel};
use crate::error::Error;
use crate::param::{Assignment, ParamModel, ParamSet};
use crate::space::{Condition, ConditionModel, DefModel, SearchSpace, SpaceModel};
use crate::text::{join, same_text};
#[allow(unused_imports)]
use crate::models;
#[allow(unused_imports)]
use crate::nas;
#[allow(unused_imports)]
use crate::param;
#[allow(unused_imports)]
use crate::space;

verus! {

/// A named hyperparameter of a component.
#[derive(Debug)]
pub struct Knob {
    /// The bare name.
    pub name: String,
    /// Its value space.
    pub distribution: Distribution,
}

/// What a [`Knob`] stands for in contracts.
pub struct KnobModel {
    /// The bare name.
    pub name: Seq<char>,
    /// Its value space.
    pub dist: DistModel,
}

impl View for Knob {
    type V = KnobModel;

    open spec fn view(&self) -> KnobModel {
        KnobModel { name: self.name@, dist: self.distribution@ }
    }
}

/// One candidate for a stage, with its own conditional hyperparameters.
#[derive(Debug)]
pub struct Component {
    name: String,
    params: Vec<Knob>,
}

/// What a [`Component`] stands for in contracts.
pub struct ComponentModel {
    /// The component name.
    pub name: Seq<char>,
    /// Its hyperparameters.
    pub knobs: Seq<KnobModel>,
}

impl View for Component {
    type V = ComponentModel;

    closed spec fn view(&self) -> ComponentModel {
        ComponentModel { name: self.name@, knobs: models::of(self.params@) }
    }
}

impl Component {
    /// A component with no hyperparameters.
    pub fn new(name: &str) -> (c: Self)
        ensures
            c@ == (ComponentModel { name: name@, knobs: Seq::empty() }),
    {
        let c = Component { name: name.to_owned(), params: Vec::new() };
        proof {
            assert(c@.knobs =~= Seq::<KnobModel>::empty());
        }
        c
    }

    /// Add a hyperparameter, active only when this component is selected for its stage.
    pub fn param(self, name: &str, distribution: Distribution) -> (c: Self)
        ensures
            c@ == (ComponentModel {
                knobs: self@.knobs.push(KnobModel { name: name@, dist: distribution@ }),
                ..self@
            }),
    {
        let mut c = self;
        c.params.push(Knob { name: name.to_owned(), distribution });
        proof {
            assert(c@.knobs =~= self@.knobs.push(KnobModel { name: name@, dist: distribution@ }));
        }
        c
    }

    /// The component name.
    pub fn name(&self) -> (s: &str)
        ensures
            s@ == self@.name,
    {
        self.name.as_str()
    }
}

/// A pipeline stage: a named choice point offering one of several components.
#[derive(Debug)]
pub struct Stage {
    name: String,
    components: Vec<Component>,
}

/// What a [`Stage`] stands for in contracts.
pub struct StageModel {
    /// The stage name.
    pub name: Seq<char>,
    /// The candidate components.
    pub components: Seq<ComponentModel>,
}

impl View for Stage {
    type V = StageModel;

    closed spec fn view(&self) -> StageModel {
        StageModel { name: self.name@, components: models::of(self.components@) }
    }
}

impl Stage {
    /// A new, empty stage.
    pub fn new(name: &str) -> (s: Self)
        ensures
            s@ == (StageModel { name: name@, components: Seq::empty() }),
    {
        let s = Stage { name: name.to_owned(), components: Vec::new() };
        proof {
            assert(s@.components =~= Seq::<ComponentModel>::empty());
        }
        s
    }

    /// Add a candidate component to this stage.
    pub fn component(self, component: Component) -> (s: Self)
        ensures
            s@ == (StageModel { components: self@.components.push(component@), ..self@ }),
    {
        let mut s = self;
        s.components.push(component);
        proof {
            assert(s@.components =~= self@.components.push(component@));
        }
        s
    }

    /// The stage name.
    pub fn name(&self) -> (s: &str)
        ensures
            s@ == self@.name,
    {
        self.name.as_str()
    }

    /// The candidate components.
    pub fn components(&self) -> (r: &Vec<Component>)
        ensures
            models::of(r@) == self@.components,
    {
        &self.components
    }
}

/// The key of a hyperparameter in the flat space.
pub open spec fn key(stage: Seq<char>, component: Seq<char>, knob: Seq<char>) -> Seq<char> {
    stage + "."@ + component + "."@ + knob
}

/// The parameter that chooses a stage's component.
pub open spec fn choice_def(s: StageModel) -> DefModel {
    DefModel {
        name: s.name,
        dist: DistModel::Categorical {
            choices: s.components.map_values(|c: ComponentModel| c.name),
        },
        condition: None,
    }
}

/// The condition on a component's hyperparameters.
pub open spec fn gate(stage: Seq<char>, component: Seq<char>) -> ConditionModel {
    ConditionModel { parent: stage, equals: seq![ParamModel::Categorical(component)] }
}

/// The parameter of a hyperparameter.
pub open spec fn knob_def(stage: Seq<char>, component: Seq<char>, k: KnobModel) -> DefModel {
    DefModel {
        name: key(stage, component, k.name),
        dist: k.dist,
        condition: Some(gate(stage, component)),
    }
}

/// The parameters of a component's hyperparameters.
pub open spec fn knob_defs(stage: Seq<char>, c: ComponentModel) -> SpaceModel {
    c.knobs.map_values(|k: KnobModel| knob_def(stage, c.name, k))
}

/// The parameters of the hyperparameters of components.
pub open spec fn component_defs(stage: Seq<char>, cs: Seq<ComponentModel>) -> SpaceModel
    decreases cs.len(),
{
    if cs.len() == 0 {
        Seq::empty()
    } else {
        component_defs(stage, cs.drop_last()) + knob_defs(stage, cs.last())
    }
}

/// The parameters of a pipeline: for each stage the choice of its component, then each
/// component's hyperparameters gated on that choice.
pub open spec fn encoded(stages: Seq<StageModel>) -> SpaceModel
    decreases stages.len(),
{
    if stages.len() == 0 {
        Seq::empty()
    } else {
        let s = stages.last();
        encoded(stages.drop_last()).push(choice_def(s)) + component_defs(s.name, s.components)
    }
}

/// The first component of that name.
pub open spec fn find_component(cs: Seq<ComponentModel>, name: Seq<char>) -> Option<ComponentModel>
    decreases cs.len(),
{
    if cs.len() == 0 {
        None
    } else if cs[0].name == name {
        Some(cs[0])
    } else {
        find_component(cs.drop_first(), name)
    }
}

proof fn component_is_found(cs: Seq<ComponentModel>, name: Seq<char>, i: int)
    requires
        0 <= i < cs.len(),
        cs[i].name == name,
        forall|k: int| 0 <= k < i ==> (#[trigger] cs[k]).name != name,
    ensures
        find_component(cs, name) == Some(cs[i]),
    decreases cs.len(),
{
    if i > 0 {
        let rest = cs.drop_first();
        assert forall|k: int| 0 <= k < i - 1 implies (#[trigger] rest[k]).name != name by {
            assert(rest[k] == cs[k + 1]);
        }
        component_is_found(rest, name, i - 1);
    }
}

proof fn component_is_absent(cs: Seq<ComponentModel>, name: Seq<char>)
    requires
        forall|k: int| 0 <= k < cs.len() ==> (#[trigger] cs[k]).name != name,
    ensures
        find_component(cs, name) is None,
    decreases cs.len(),
{
    if cs.len() > 0 {
        let rest = cs.drop_first();
        assert forall|k: int| 0 <= k < rest.len() implies (#[trigger] rest[k]).name != name by {
            assert(rest[k] == cs[k + 1]);
        }
        component_is_absent(rest, name);
    }
}

/// A component that is found is one of the candidates and has the name.
proof fn found_component_is_there(cs: Seq<ComponentModel>, name: Seq<char>) -> (i: int)
    requires
        exists|k: int| 0 <= k < cs.len() && (#[trigger] cs[k]).name == name,
    ensures
        0 <= i < cs.len(),
        find_component(cs, name) == Some(cs[i]),
        cs[i].name == name,
    decreases cs.len(),
{
    if cs[0].name == name {
        0
    } else {
        let k = choose|k: int| 0 <= k < cs.len() && (#[trigger] cs[k]).name == name;
        let rest = cs.drop_first();
        assert(rest[k - 1] == cs[k]);
        let j = found_component_is_there(rest, name);
        assert(rest[j] == cs[j + 1]);
        j + 1
    }
}

/// The hyperparameters that an assignment gives a component, by their bare names. A repeated
/// name takes the last value.
pub open spec fn knob_values(
    stage: Seq<char>,
    component: Seq<char>,
    knobs: Seq<KnobModel>,
    a: Assignment,
) -> Assignment
    decreases knobs.len(),
{
    if knobs.len() == 0 {
        Map::empty()
    } else {
        let rest = knob_values(stage, component, knobs.drop_last(), a);
        let name = knobs.last().name;
        if a.contains_key(key(stage, component, name)) {
            rest.insert(name, a[key(stage, component, name)])
        } else {
            rest
        }
    }
}

/// What a [`StageChoice`] stands for in contracts.
pub struct ChoiceModel {
    /// The stage name.
    pub stage: Seq<char>,
    /// The selected component's name.
    pub component: Seq<char>,
    /// The selected component's hyperparameters.
    pub params: Assignment,
}

/// The choice that an assignment makes for a stage, if it makes one.
pub open spec fn stage_choice(s: StageModel, a: Assignment) -> Option<ChoiceModel> {
    match nas::text_in(a, s.name) {
        Some(component) => match find_component(s.components, component) {
            Some(c) => Some(
                ChoiceModel {
                    stage: s.name,
                    component,
                    params: knob_values(s.name, component, c.knobs, a),
                },
            ),
            None => None,
        },
        None => None,
    }
}

/// Whether `e` is the complaint about a stage of an assignment.
pub open spec fn stage_fault(s: StageModel, a: Assignment, e: Error) -> bool {
    match nas::text_in(a, s.name) {
        Some(component) => e matches Error::Objective(m) && m@ == "stage '"@ + s.name
            + "' selected unknown component '"@ + component + "'"@,
        None => nas::lacks_text(a, s.name, e),
    }
}

/// Whether the first `n` stages of an assignment can be decoded.
pub open spec fn decodable(stages: Seq<StageModel>, a: Assignment, n: int) -> bool {
    forall|i: int| 0 <= i < n ==> stage_choice(#[trigger] stages[i], a) is Some
}

/// The choices that an assignment makes.
pub open spec fn decoded(stages: Seq<StageModel>, a: Assignment) -> Seq<ChoiceModel> {
    stages.map_values(|s: StageModel| stage_choice(s, a)->0)
}

/// Whether stage `i` is the first faulty one, and `e` the complaint about it.
pub open spec fn faulty_at(stages: Seq<StageModel>, a: Assignment, e: Error, i: int) -> bool {
    &&& 0 <= i < stages.len()
    &&& decodable(stages, a, i)
    &&& stage_choice(stages[i], a) is None
    &&& stage_fault(stages[i], a, e)
}

/// A searchable pipeline: an ordered list of stages, each a conditional choice of component plus
/// that component's hyperparameters.
#[derive(Debug)]
pub struct PipelineSpace {
    stages: Vec<Stage>,
}

impl View for PipelineSpace {
    type V = Seq<StageModel>;

    closed spec fn view(&self) -> Seq<StageModel> {
        models::of(self.stages@)
    }
}

impl Default for PipelineSpace {
    fn default() -> (p: Self)
        ensures
            p@ == Seq::<StageModel>::empty(),
    {
        PipelineSpace::new()
    }
}

impl PipelineSpace {
    /// An empty pipeline space.
    pub fn new() -> (p: Self)
        ensures
            p@ == Seq::<StageModel>::empty(),
    {
        let p = PipelineSpace { stages: Vec::new() };
        proof {
            assert(p@ =~= Seq::<StageModel>::empty());
        }
        p
    }

    /// Append a stage.
    pub fn stage(self, stage: Stage) -> (p: Self)
        ensures
            p@ == self@.push(stage@),
    {
        let mut p = self;
        p.stages.push(stage);
        proof {
            assert(p@ =~= self@.push(stage@));
        }
        p
    }

    /// The stages, in order.
    pub fn stages(&self) -> (r: &Vec<Stage>)
        ensures
            models::of(r@) == self@,
    {
        &self.stages
    }

    /// Lower the pipeline to a flat conditional [`SearchSpace`].
    pub fn to_search_space(&self) -> (s: SearchSpace)
        ensures
            s@ == encoded(self@),
    {
        let mut space = SearchSpace::new();
        let ghost all = self@;
        let mut i: usize = 0;
        proof {
            assert(all.take(0).len() == 0);
        }
        while i < self.stages.len()
            invariant
                i <= self.stages@.len(),
                all == self@,
                space@ == encoded(all.take(i as int)),
            decreases self.stages@.len() - i,
        {
            let stage = &self.stages[i];
            let ghost before = space@;
            space = lower_stage(space, stage);
            proof {
                assert(all.take(i + 1).drop_last() =~= all.take(i as int));
                assert(all.take(i + 1).last() == stage@);
            }
            i += 1;
        }
        proof {
            assert(all.take(i as int) =~= all);
        }
        space
    }

    /// Lift a sampled [`ParamSet`] into a concrete [`PipelinePlan`].
    pub fn decode(&self, params: &ParamSet) -> (r: Result<PipelinePlan, Error>)
        ensures
            match r {
                Ok(plan) => decodable(self@, params@, self@.len() as int) && plan@ == decoded(
                    self@,
                    params@,
                ),
                Err(e) => exists|i: int| #[trigger] faulty_at(self@, params@, e, i),
            },
    {
        let ghost all = self@;
        let ghost a = params@;
        let mut chosen: Vec<StageChoice> = Vec::new();
        let mut i: usize = 0;
        while i < self.stages.len()
            invariant
                i <= self.stages@.len(),
                all == self@,
                a == params@,
                chosen@.len() == i,
                decodable(all, a, i as int),
                forall|k: int|
                    0 <= k < i ==> (#[trigger] chosen@[k])@ == stage_choice(all[k], a)->0,
            decreases self.stages@.len() - i,
        {
            proof {
                assert(all[i as int] == self.stages@[i as int]@);
            }
            match lift_stage(&self.stages[i], params) {
                Ok(c) => {
                    chosen.push(c);
                },
                Err(e) => {
                    proof {
                        assert(faulty_at(all, a, e, i as int));
                    }
                    return Err(e);
                },
            }
            i += 1;
        }
        let plan = PipelinePlan { stages: chosen };
        proof {
            assert(plan@ =~= decoded(all, a));
        }
        Ok(plan)
    }
}

fn key_text(stage: &str, component: &str, knob: &str) -> (s: String)
    ensures
        s@ == key(stage@, component@, knob@),
{
    let mut s = join(stage, ".");
    s = join(s.as_str(), component);
    s = join(s.as_str(), ".");
    join(s.as_str(), knob)
}

/// Adds the parameters of a stage to a space.
fn lower_stage(space: SearchSpace, stage: &Stage) -> (s: SearchSpace)
    ensures
        s@ == space@.push(choice_def(stage@)) + component_defs(stage@.name, stage@.components),
{
    let mut names: Vec<String> = Vec::new();
    let mut i: usize = 0;
    while i < stage.components.len()
        invariant
            i <= stage.components@.len(),
            names@.len() == i,
            forall|k: int|
                0 <= k < i ==> (#[trigger] names@[k])@ == stage.components@[k]@.name,
        decreases stage.components@.len() - i,
    {
        names.push(stage.components[i].name.clone());
        i += 1;
    }
    proof {
        assert(models::of(names@) =~= stage@.components.map_values(|c: ComponentModel| c.name));
    }
    let mut s = space.add(stage.name.as_str(), Distribution::categorical(names));
    let ghost base = s@;
    let ghost cs = stage@.components;
    let mut j: usize = 0;
    proof {
        assert(cs.take(0).len() == 0);
        assert(base + component_defs(stage@.name, cs.take(0)) =~= base);
    }
    while j < stage.components.len()
        invariant
            j <= stage.components@.len(),
            cs == stage@.components,
            s@ == base + component_defs(stage@.name, cs.take(j as int)),
        decreases stage.components@.len() - j,
    {
        let c = &stage.components[j];
        let ghost before = s@;
        let ghost defs = knob_defs(stage@.name, c@);
        let mut k: usize = 0;
        proof {
            assert(before + defs.take(0) =~= before);
        }
        while k < c.params.len()
            invariant
                k <= c.params@.len(),
                defs == knob_defs(stage@.name, c@),
                s@ == before + defs.take(k as int),
            decreases c.params@.len() - k,
        {
            let knob = &c.params[k];
            let gate = Condition::when_eq(stage.name.as_str(), c.name.as_str());
            s = s.add_conditional(
                key_text(stage.name.as_str(), c.name.as_str(), knob.name.as_str()).as_str(),
                knob.distribution.clone(),
                gate,
            );
            proof {
                assert(c@.knobs[k as int] == knob@);
                assert(defs[k as int] == knob_def(stage@.name, c@.name, knob@));
                assert(before + defs.take(k + 1) =~= (before + defs.take(k as int)).push(
                    defs[k as int],
                ));
            }
            k += 1;
        }
        proof {
            assert(defs.take(k as int) =~= defs);
            assert(cs.take(j + 1).drop_last() =~= cs.take(j as int));
            assert(cs.take(j + 1).last() == c@);
            assert(base + component_defs(stage@.name, cs.take(j + 1)) =~= before + defs);
        }
        j += 1;
    }
    proof {
        assert(cs.take(j as int) =~= cs);
    }
    s
}

/// The choice that an assignment makes for a stage.
fn lift_stage(stage: &Stage, params: &ParamSet) -> (r: Result<StageChoice, Error>)
    ensures
        match r {
            Ok(c) => stage_choice(stage@, params@) == Some(c@),
            Err(e) => stage_choice(stage@, params@) is None && stage_fault(stage@, params@, e),
        },
{
    let component = match params.categorical(stage.name.as_str()) {
        Ok(s) => s.to_owned(),
        Err(e) => {
            return Err(e);
        },
    };
    let ghost cs = stage@.components;
    let mut i: usize = 0;
    while i < stage.components.len() && !same_text(
        stage.components[i].name.as_str(),
        component.as_str(),
    )
        invariant
            i <= stage.components@.len(),
            cs == stage@.components,
            forall|k: int| 0 <= k < i ==> (#[trigger] cs[k]).name != component@,
        decreases stage.components@.len() - i,
    {
        proof {
            assert(cs[i as int] == stage.components@[i as int]@);
        }
        i += 1;
    }
    if i == stage.components.len() {
        proof {
            component_is_absent(cs, component@);
        }
        let mut m = join("stage '", stage.name.as_str());
        m = join(m.as_str(), "' selected unknown component '");
        m = join(m.as_str(), component.as_str());
        m = join(m.as_str(), "'");
        return Err(Error::Objective(m));
    }
    let comp = &stage.components[i];
    proof {
        assert(cs[i as int] == comp@);
        component_is_found(cs, component@, i as int);
    }
    let mut sub = ParamSet::new();
    let ghost knobs = comp@.knobs;
    let mut k: usize = 0;
    proof {
        assert(knobs.take(0).len() == 0);
        assert(sub@ =~= knob_values(stage@.name, component@, knobs.take(0), params@));
    }
    while k < comp.params.len()
        invariant
            k <= comp.params@.len(),
            knobs == comp@.knobs,
            sub@ == knob_values(stage@.name, component@, knobs.take(k as int), params@),
        decreases comp.params@.len() - k,
    {
        let knob = &comp.params[k];
        let name = key_text(stage.name.as_str(), component.as_str(), knob.name.as_str());
        proof {
            assert(knobs.take(k + 1).drop_last() =~= knobs.take(k as int));
            assert(knobs.take(k + 1).last() == knob@);
        }
        if let Some(v) = params.get(name.as_str()) {
            sub.insert(knob.name.as_str(), v.clone());
        }
        k += 1;
    }
    proof {
        assert(knobs.take(k as int) =~= knobs);
    }
    Ok(StageChoice { stage: stage.name.clone(), component, params: sub })
}

/// The chosen component (and its hyperparameters) for one stage.
#[derive(Debug)]
pub struct StageChoice {
    /// The stage name.
    pub stage: String,
    /// The selected component's name.
    pub component: String,
    /// The selected component's hyperparameters, by their bare names.
    pub params: ParamSet,
}

impl View for StageChoice {
    type V = ChoiceModel;

    open spec fn view(&self) -> ChoiceModel {
        ChoiceModel { stage: self.stage@, component: self.component@, params: self.params@ }
    }
}

/// A decoded pipeline: the component chosen at each stage, in order.
#[derive(Debug)]
pub struct PipelinePlan {
    /// One choice per stage, in declaration order.
    pub stages: Vec<StageChoice>,
}

impl View for PipelinePlan {
    type V = Seq<ChoiceModel>;

    open spec fn view(&self) -> Seq<ChoiceModel> {
        models::of(self.stages@)
    }
}

/// Whether choice `i` is the first one for a stage.
pub open spec fn first_for(choices: Seq<ChoiceModel>, stage: Seq<char>, i: int) -> bool {
    &&& 0 <= i < choices.len()
    &&& choices[i].stage == stage
    &&& forall|k: int| 0 <= k < i ==> (#[trigger] choices[k]).stage != stage
}

/// Whether there is no choice for a stage.
pub open spec fn none_for(choices: Seq<ChoiceModel>, stage: Seq<char>) -> bool {
    forall|k: int| 0 <= k < choices.len() ==> (#[trigger] choices[k]).stage != stage
}

/// The text of a choice.
pub open spec fn choice_text(c: ChoiceModel) -> Seq<char> {
    c.stage + "="@ + c.component
}

/// The texts of choices, joined by middle dots.
pub open spec fn described(choices: Seq<ChoiceModel>) -> Seq<char>
    decreases choices.len(),
{
    if choices.len() == 0 {
        ""@
    } else if choices.len() == 1 {
        choice_text(choices[0])
    } else {
        described(choices.drop_last()) + " · "@ + choice_text(choices.last())
    }
}

impl PipelinePlan {
    /// The component chosen for a named stage, if present.
    pub fn component(&self, stage: &str) -> (r: Option<&str>)
        ensures
            match r {
                Some(c) => exists|i: int| #[trigger]
                    first_for(self@, stage@, i) && c@ == self@[i].component,
                None => none_for(self@, stage@),
            },
    {
        match self.choice(stage) {
            Some(c) => Some(c.component.as_str()),
            None => None,
        }
    }

    /// The chosen component and its parameters for a named stage.
    pub fn choice(&self, stage: &str) -> (r: Option<&StageChoice>)
        ensures
            match r {
                Some(c) => exists|i: int| #[trigger]
                    first_for(self@, stage@, i) && c@ == self@[i],
                None => none_for(self@, stage@),
            },
    {
        let ghost all = self@;
        let mut i: usize = 0;
        while i < self.stages.len()
            invariant
                i <= self.stages@.len(),
                all == self@,
                forall|k: int| 0 <= k < i ==> (#[trigger] all[k]).stage != stage@,
            decreases self.stages@.len() - i,
        {
            proof {
                assert(all[i as int] == self.stages@[i as int]@);
            }
            if same_text(self.stages[i].stage.as_str(), stage) {
                proof {
                    assert(first_for(all, stage@, i as int));
                }
                return Some(&self.stages[i]);
            }
            i += 1;
        }
        None
    }

    /// A short, stable description, e.g. `preprocess=standardize · model=knn`.
    pub fn describe(&self) -> (s: String)
        ensures
            s@ == described(self@),
    {
        let mut out = "".to_owned();
        let ghost all = self@;
        let mut i: usize = 0;
        proof {
            assert(all.take(0).len() == 0);
        }
        while i < self.stages.len()
            invariant
                i <= self.stages@.len(),
                all == self@,
                out@ == described(all.take(i as int)),
            decreases self.stages@.len() - i,
        {
            let c = &self.stages[i];
            let part = join(join(c.stage.as_str(), "=").as_str(), c.component.as_str());
            proof {
                assert(part@ == choice_text(all[i as int]));
                assert(all.take(i + 1).drop_last() =~= all.take(i as int));
                assert(all.take(i + 1).last() == all[i as int]);
            }
            if i == 0 {
                out = part;
                proof {
                    assert(all.take(1)[0] == all[0]);
                }
            } else {
                out = join(join(out.as_str(), " · ").as_str(), part.as_str());
            }
            i += 1;
        }
        proof {
            assert(all.take(i as int) =~= all);
        }
        out
    }
}

proof fn choice_is_declared(stages: Seq<StageModel>, i: int)
    requires
        0 <= i < stages.len(),
    ensures
        encoded(stages).contains(choice_def(stages[i])),
    decreases stages.len(),
{
    let s = stages.last();
    let rest = encoded(stages.drop_last());
    let all = encoded(stages);
    if i < stages.len() - 1 {
        choice_is_declared(stages.drop_last(), i);
        let x = rest.index_of(choice_def(stages[i]));
        assert(all[x] == rest[x]);
    } else {
        assert(all[rest.len() as int] == choice_def(s));
    }
}

proof fn knob_is_declared(stages: Seq<StageModel>, i: int, c: int, k: int)
    requires
        0 <= i < stages.len(),
        0 <= c < stages[i].components.len(),
        0 <= k < stages[i].components[c].knobs.len(),
    ensures
        encoded(stages).contains(
            knob_def(
                stages[i].name,
                stages[i].components[c].name,
                stages[i].components[c].knobs[k],
            ),
        ),
    decreases stages.len(),
{
    let s = stages.last();
    let rest = encoded(stages.drop_last());
    let all = encoded(stages);
    let d = knob_def(stages[i].name, stages[i].components[c].name, stages[i].components[c].knobs[k]);
    if i < stages.len() - 1 {
        knob_is_declared(stages.drop_last(), i, c, k);
        let x = rest.index_of(d);
        assert(all[x] == rest[x]);
    } else {
        knob_of_component(s.name, s.components, c, k);
        let defs = component_defs(s.name, s.components);
        let x = defs.index_of(d);
        assert(all[rest.len() as int + 1 + x] == d);
    }
}

proof fn knob_of_component(stage: Seq<char>, cs: Seq<ComponentModel>, c: int, k: int)
    requires
        0 <= c < cs.len(),
        0 <= k < cs[c].knobs.len(),
    ensures
        component_defs(stage, cs).contains(knob_def(stage, cs[c].name, cs[c].knobs[k])),
    decreases cs.len(),
{
    let rest = component_defs(stage, cs.drop_last());
    let all = component_defs(stage, cs);
    let d = knob_def(stage, cs[c].name, cs[c].knobs[k]);
    if c < cs.len() - 1 {
        knob_of_component(stage, cs.drop_last(), c, k);
        let x = rest.index_of(d);
        assert(all[x] == rest[x]);
    } else {
        assert(knob_defs(stage, cs[c])[k] == d);
        assert(all[rest.len() as int + k] == d);
    }
}

/// The hyperparameters of a component hold each value that the assignment gives it.
proof fn knob_values_hold(
    stage: Seq<char>,
    component: Seq<char>,
    knobs: Seq<KnobModel>,
    a: Assignment,
    k: int,
)
    requires
        0 <= k < knobs.len(),
        a.contains_key(key(stage, component, knobs[k].name)),
    ensures
        knob_values(stage, component, knobs, a).contains_key(knobs[k].name),
        knob_values(stage, component, knobs, a)[knobs[k].name] == a[key(
            stage,
            component,
            knobs[k].name,
        )],
    decreases knobs.len(),
{
    if k < knobs.len() - 1 {
        knob_values_hold(stage, component, knobs.drop_last(), a, k);
    }
}

/// Every legal assignment decodes: each stage gets one of its components, with every
/// hyperparameter of that component present and fitting its distribution.
pub proof fn law_legal_assignments_decode(stages: Seq<StageModel>, a: Assignment, i: int)
    requires
        space::legal(encoded(stages), a),
        0 <= i < stages.len(),
    ensures
        stage_choice(stages[i], a) is Some,
        find_component(stages[i].components, (stage_choice(stages[i], a)->0).component) is Some,
        ({
            let c = find_component(
                stages[i].components,
                (stage_choice(stages[i], a)->0).component,
            )->0;
            let held = (stage_choice(stages[i], a)->0).params;
            forall|k: int|
                0 <= k < c.knobs.len() ==> held.contains_key((#[trigger] c.knobs[k]).name)
                    && c.knobs[k].dist.fits(held[c.knobs[k].name])
        }),
{
    let s = stages[i];
    let defs = encoded(stages);
    choice_is_declared(stages, i);
    let x = defs.index_of(choice_def(s));
    assert(defs[x].active(a));
    assert(defs[x].dist.fits(a[s.name]));
    let chosen = a[s.name]->Categorical_0;
    let names = s.components.map_values(|c: ComponentModel| c.name);
    let n = names.index_of(chosen);
    assert(s.components[n].name == chosen);
    let ci = found_component_is_there(s.components, chosen);
    let c = s.components[ci];
    let held = knob_values(s.name, chosen, c.knobs, a);
    assert forall|k: int| 0 <= k < c.knobs.len() implies held.contains_key(
        (#[trigger] c.knobs[k]).name,
    ) && c.knobs[k].dist.fits(held[c.knobs[k].name]) by {
        knob_is_declared(stages, i, ci, k);
        let d = knob_def(s.name, c.name, c.knobs[k]);
        let y = defs.index_of(d);
        assert(gate(s.name, c.name).satisfied(a)) by {
            let g = gate(s.name, c.name);
            assert(g.equals[0] == ParamModel::Categorical(c.name));
            assert(param::equal_values(g.equals[0], a[s.name]));
        }
        assert(defs[y].active(a));
        assert(defs[y].dist.fits(a[defs[y].name]));
        knob_values_hold(s.name, chosen, c.knobs, a, k);
    }
}

/// Decoding reads the assignment: the component is the one that it names for the stage, and each
/// setting has the value that stands under the names of stage, component and setting.
pub proof fn law_decoding_reads_the_assignment(s: StageModel, a: Assignment, knob: Seq<char>)
    requires
        stage_choice(s, a) is Some,
    ensures
        ({
            let choice = stage_choice(s, a)->0;
            &&& choice.stage == s.name
            &&& a.contains_key(s.name)
            &&& a[s.name] == ParamModel::Categorical(choice.component)
            &&& choice.params.contains_key(knob) ==> a.contains_key(
                s.name + "."@ + choice.component + "."@ + knob,
            ) && choice.params[knob] == a[s.name + "."@ + choice.component + "."@ + knob]
        }),
{
    let choice = stage_choice(s, a)->0;
    let c = find_component(s.components, choice.component)->0;
    knobs_are_read(s.name, choice.component, c.knobs, a, knob);
}

proof fn knobs_are_read(
    stage: Seq<char>,
    component: Seq<char>,
    knobs: Seq<KnobModel>,
    a: Assignment,
    knob: Seq<char>,
)
    ensures
        knob_values(stage, component, knobs, a).contains_key(knob) ==> a.contains_key(
            key(stage, component, knob),
        ) && knob_values(stage, component, knobs, a)[knob] == a[key(stage, component, knob)],
    decreases knobs.len(),
{
    if knobs.len() > 0 {
        knobs_are_read(stage, component, knobs.drop_last(), a, knob);
    }
}

} // verus!
