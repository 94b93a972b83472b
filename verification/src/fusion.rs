//! Multimodal fusion search primitives.
//!
//! A multimodal study searches each modality's encoder and projection dimension plus a fusion
//! strategy. Dimension constraints are validated before scheduling, so an incompatible
//! configuration is rejected before any training starts.

use vstd::prelude::*;
use crate::distribution::{clone_texts, Distribution, DistModel};
use crate::error::Error;
use crate::param::{Assignment, ParamModel, ParamSet};
use crate::space::{DefModel, SearchSpace, SpaceModel};
use crate::text::{decimal_text, join, same_text};
#[allow(unused_imports)]
use crate::models;
#[allow(unused_imports)]
use crate::nas;
#[allow(unused_imports)]
use crate::param;
#[allow(unused_imports)]
use crate::space;
#[allow(unused_imports)]
use crate::text;

verus! {

/// How per-modality feature vectors are combined into a joint representation.
#[derive(Debug, Clone, Copy, PartialEq, Eq, Structural)]
pub enum Fusion {
    /// Concatenate all modality vectors. Works for any per-modality dimensions.
    Concat,
    /// Element-wise mean. Requires every modality to share one dimension.
    Mean,
    /// Element-wise sum. Requires every modality to share one dimension.
    Sum,
}

impl Fusion {
    /// The categorical label of a strategy.
    pub open spec fn label(self) -> Seq<char> {
        match self {
            Fusion::Concat => "concat"@,
            Fusion::Mean => "mean"@,
            Fusion::Sum => "sum"@,
        }
    }

    /// The strategy's name as it stands in messages.
    pub open spec fn title(self) -> Seq<char> {
        match self {
            Fusion::Concat => "Concat"@,
            Fusion::Mean => "Mean"@,
            Fusion::Sum => "Sum"@,
        }
    }

    /// Whether the strategy works element by element.
    pub open spec fn elementwise(self) -> bool {
        self != Fusion::Concat
    }

    /// Parse a categorical label into a fusion strategy.
    pub fn from_label(s: &str) -> (r: Option<Fusion>)
        ensures
            match r {
                Some(f) => s@ == f.label(),
                None => forall|f: Fusion| s@ != #[trigger] f.label(),
            },
    {
        if same_text(s, "concat") {
            Some(Fusion::Concat)
        } else if same_text(s, "mean") {
            Some(Fusion::Mean)
        } else if same_text(s, "sum") {
            Some(Fusion::Sum)
        } else {
            None
        }
    }

    /// Whether this strategy requires all modality dimensions to be equal.
    pub fn requires_equal_dims(&self) -> (r: bool)
        ensures
            r == self.elementwise(),
    {
        match self {
            Fusion::Concat => false,
            _ => true,
        }
    }

    /// The strategy's name as it stands in messages.
    fn title_text(&self) -> (s: &'static str)
        ensures
            s@ == self.title(),
    {
        match self {
            Fusion::Concat => "Concat",
            Fusion::Mean => "Mean",
            Fusion::Sum => "Sum",
        }
    }
}

fn fusion_label(f: Fusion) -> (s: &'static str)
    ensures
        s@ == f.label(),
{
    match f {
        Fusion::Concat => "concat",
        Fusion::Mean => "mean",
        Fusion::Sum => "sum",
    }
}

/// Labels tell the strategies apart.
pub proof fn law_labels_are_distinct(f: Fusion, g: Fusion)
    requires
        f.label() == g.label(),
    ensures
        f == g,
{
    reveal_strlit("concat");
    reveal_strlit("mean");
    reveal_strlit("sum");
    assert("concat"@.len() == 6 && "mean"@.len() == 4 && "sum"@.len() == 3);
}

/// A modality: a name plus its candidate encoders. Its projection dimension is searched within
/// a range.
#[derive(Debug)]
pub struct Modality {
    name: String,
    encoders: Vec<String>,
    min_dim: usize,
    max_dim: usize,
}

/// What a [`Modality`] stands for in contracts.
pub struct ModalityModel {
    /// The name.
    pub name: Seq<char>,
    /// The candidate encoders.
    pub encoders: Seq<Seq<char>>,
    /// The least dimension.
    pub min_dim: usize,
    /// The greatest dimension.
    pub max_dim: usize,
}

impl View for Modality {
    type V = ModalityModel;

    closed spec fn view(&self) -> ModalityModel {
        ModalityModel {
            name: self.name@,
            encoders: models::of(self.encoders@),
            min_dim: self.min_dim,
            max_dim: self.max_dim,
        }
    }
}

impl Modality {
    /// A modality named `name` with candidate `encoders`, projecting to a searched dimension in
    /// `[min_dim, max_dim]`.
    pub fn new(name: &str, encoders: Vec<String>, min_dim: usize, max_dim: usize) -> (m: Self)
        ensures
            m@.name == name@,
            m@.encoders == models::of(encoders@),
            m@.min_dim == if min_dim < 1 {
                1
            } else {
                min_dim
            },
            m@.max_dim == if max_dim < m@.min_dim {
                m@.min_dim
            } else {
                max_dim
            },
    {
        let low: usize = if min_dim < 1 {
            1
        } else {
            min_dim
        };
        Modality {
            name: name.to_owned(),
            encoders,
            min_dim: low,
            max_dim: if max_dim < low {
                low
            } else {
                max_dim
            },
        }
    }

    /// The modality name.
    pub fn name(&self) -> (s: &str)
        ensures
            s@ == self@.name,
    {
        self.name.as_str()
    }
}

impl ModalityModel {
    /// Whether the dimensions are a range of machine integers.
    pub open spec fn well_formed(self) -> bool {
        1 <= self.min_dim <= self.max_dim <= i64::MAX
    }

    /// The name of the encoder parameter.
    pub open spec fn encoder_name(self) -> Seq<char> {
        self.name + ".encoder"@
    }

    /// The name of the dimension parameter.
    pub open spec fn dim_name(self) -> Seq<char> {
        self.name + ".dim"@
    }

    /// The encoder parameter.
    pub open spec fn encoder_def(self) -> DefModel {
        DefModel {
            name: self.encoder_name(),
            dist: DistModel::Categorical { choices: self.encoders },
            condition: None,
        }
    }

    /// The dimension parameter.
    pub open spec fn dim_def(self) -> DefModel {
        DefModel {
            name: self.dim_name(),
            dist: DistModel::Int {
                low: self.min_dim as i64,
                high: self.max_dim as i64,
                log: false,
                step: 1,
            },
            condition: None,
        }
    }

    /// The choice that an assignment makes for this modality, if it makes one.
    pub open spec fn choice_in(self, a: Assignment) -> Option<ChoiceModel> {
        match nas::text_in(a, self.encoder_name()) {
            Some(encoder) => if a.contains_key(self.dim_name()) {
                match a[self.dim_name()] {
                    ParamModel::Int(d) => Some(
                        ChoiceModel { name: self.name, encoder, dim: d as usize },
                    ),
                    _ => None,
                }
            } else {
                None
            },
            None => None,
        }
    }

    /// Whether `e` is the complaint about this modality of an assignment.
    pub open spec fn fault(self, a: Assignment, e: Error) -> bool {
        if nas::text_in(a, self.encoder_name()) is None {
            nas::lacks_text(a, self.encoder_name(), e)
        } else if a.contains_key(self.dim_name()) {
            param::is_mismatch(e, self.dim_name(), param::kind_label(a[self.dim_name()]), "int"@)
        } else {
            param::is_missing(e, self.dim_name())
        }
    }
}

/// The modalities of a space.
pub type ModalityModels = Seq<ModalityModel>;

/// The parameters of modalities, in order.
pub open spec fn modality_defs(ms: ModalityModels) -> SpaceModel
    decreases ms.len(),
{
    if ms.len() == 0 {
        Seq::empty()
    } else {
        modality_defs(ms.drop_last()).push(ms.last().encoder_def()).push(ms.last().dim_def())
    }
}

/// The fusion parameter.
pub open spec fn fusion_def(fusions: Seq<Fusion>) -> DefModel {
    DefModel {
        name: "fusion"@,
        dist: DistModel::Categorical { choices: fusions.map_values(|f: Fusion| f.label()) },
        condition: None,
    }
}

/// The parameters of a multimodal space.
pub open spec fn encoded(ms: ModalityModels, fusions: Seq<Fusion>) -> SpaceModel {
    modality_defs(ms).push(fusion_def(fusions))
}

/// Whether the first `n` modalities of an assignment can be decoded.
pub open spec fn decodable(ms: ModalityModels, a: Assignment, n: int) -> bool {
    forall|i: int| 0 <= i < n ==> (#[trigger] ms[i]).choice_in(a) is Some
}

/// The choices that an assignment makes.
pub open spec fn decoded(ms: ModalityModels, a: Assignment) -> Seq<ChoiceModel> {
    ms.map_values(|m: ModalityModel| m.choice_in(a)->0)
}

/// Whether an assignment decodes to a plan: each modality has its encoder and its dimension, and
/// the fusion label names a strategy.
pub open spec fn decodes(ms: ModalityModels, a: Assignment) -> bool {
    &&& decodable(ms, a, ms.len() as int)
    &&& exists|f: Fusion| nas::text_in(a, "fusion"@) == Some(#[trigger] f.label())
}

/// Whether `e` is the complaint about an assignment: its first faulty modality, or its fusion.
pub open spec fn fault(ms: ModalityModels, a: Assignment, e: Error) -> bool {
    if decodable(ms, a, ms.len() as int) {
        match nas::text_in(a, "fusion"@) {
            Some(s) => (forall|f: Fusion| s != #[trigger] f.label()) && (e matches Error::Objective(
                m,
            ) && m@ == "unknown fusion strategy"@),
            None => nas::lacks_text(a, "fusion"@, e),
        }
    } else {
        exists|i: int| #[trigger] faulty_at(ms, a, e, i)
    }
}

/// Whether modality `i` is the first faulty one, and `e` the complaint about it.
pub open spec fn faulty_at(ms: ModalityModels, a: Assignment, e: Error, i: int) -> bool {
    &&& 0 <= i < ms.len()
    &&& decodable(ms, a, i)
    &&& ms[i].choice_in(a) is None
    &&& ms[i].fault(a, e)
}

/// A searchable multimodal configuration: several modalities plus a fusion strategy.
#[derive(Debug)]
pub struct MultimodalSpace {
    modalities: Vec<Modality>,
    fusions: Vec<Fusion>,
}

impl MultimodalSpace {
    /// The modalities.
    pub closed spec fn modes(self) -> ModalityModels {
        models::of(self.modalities@)
    }

    /// The candidate fusion strategies.
    pub closed spec fn strategies(self) -> Seq<Fusion> {
        self.fusions@
    }

    /// A multimodal space over `modalities`, offering all fusion strategies.
    pub fn new(modalities: Vec<Modality>) -> (s: Self)
        ensures
            s.modes() == models::of(modalities@),
            s.strategies() == seq![Fusion::Concat, Fusion::Mean, Fusion::Sum],
    {
        let s = MultimodalSpace {
            modalities,
            fusions: vec![Fusion::Concat, Fusion::Mean, Fusion::Sum],
        };
        proof {
            assert(s.fusions@ =~= seq![Fusion::Concat, Fusion::Mean, Fusion::Sum]);
        }
        s
    }

    /// Restrict the candidate fusion strategies; an empty list changes nothing.
    pub fn with_fusions(self, fusions: Vec<Fusion>) -> (s: Self)
        ensures
            s.modes() == self.modes(),
            s.strategies() == if fusions@.len() > 0 {
                fusions@
            } else {
                self.strategies()
            },
    {
        let mut s = self;
        if fusions.len() > 0 {
            s.fusions = fusions;
        }
        s
    }

    /// Lower to a flat [`SearchSpace`]: per modality an encoder and a dimension, plus a
    /// top-level `fusion`.
    pub fn to_search_space(&self) -> (s: SearchSpace)
        ensures
            s@ == encoded(self.modes(), self.strategies()),
    {
        let mut space = SearchSpace::new();
        let ghost all = self.modes();
        let mut i: usize = 0;
        proof {
            assert(all.take(0).len() == 0);
        }
        while i < self.modalities.len()
            invariant
                i <= self.modalities@.len(),
                all == self.modes(),
                space@ == modality_defs(all.take(i as int)),
            decreases self.modalities@.len() - i,
        {
            let m = &self.modalities[i];
            let ghost before = space@;
            space = space.add(
                join(m.name.as_str(), ".encoder").as_str(),
                Distribution::categorical(clone_texts(&m.encoders)),
            );
            space = space.add(
                join(m.name.as_str(), ".dim").as_str(),
                Distribution::integer(m.min_dim as i64, m.max_dim as i64),
            );
            proof {
                assert(all.take(i + 1).drop_last() =~= all.take(i as int));
                assert(all.take(i + 1).last() == m@);
            }
            i += 1;
        }
        proof {
            assert(all.take(i as int) =~= all);
        }
        let mut labels: Vec<String> = Vec::new();
        let mut j: usize = 0;
        while j < self.fusions.len()
            invariant
                j <= self.fusions@.len(),
                labels@.len() == j,
                forall|k: int|
                    0 <= k < j ==> (#[trigger] labels@[k])@ == self.fusions@[k].label(),
            decreases self.fusions@.len() - j,
        {
            labels.push(fusion_label(self.fusions[j]).to_owned());
            j += 1;
        }
        proof {
            assert(models::of(labels@) =~= self.strategies().map_values(|f: Fusion| f.label()));
        }
        space.add("fusion", Distribution::categorical(labels))
    }

    /// Decode a sampled [`ParamSet`] into a [`MultimodalPlan`].
    pub fn decode(&self, params: &ParamSet) -> (r: Result<MultimodalPlan, Error>)
        ensures
            r is Ok <==> decodes(self.modes(), params@),
            match r {
                Ok(plan) => decodable(self.modes(), params@, self.modes().len() as int)
                    && plan.choices() == decoded(self.modes(), params@) && nas::text_in(
                    params@,
                    "fusion"@,
                ) == Some(plan.fusion.label()),
                Err(e) => fault(self.modes(), params@, e),
            },
    {
        let mut encoders: Vec<ModalityChoice> = Vec::new();
        let ghost all = self.modes();
        let ghost a = params@;
        let mut i: usize = 0;
        while i < self.modalities.len()
            invariant
                i <= self.modalities@.len(),
                all == self.modes(),
                a == params@,
                encoders@.len() == i,
                decodable(all, a, i as int),
                forall|k: int|
                    0 <= k < i ==> (#[trigger] encoders@[k])@ == all[k].choice_in(a)->0,
            decreases self.modalities@.len() - i,
        {
            let m = &self.modalities[i];
            proof {
                assert(all[i as int] == m@);
            }
            let encoder = match params.categorical(join(m.name.as_str(), ".encoder").as_str()) {
                Ok(s) => s.to_owned(),
                Err(e) => {
                    proof {
                        assert(faulty_at(all, a, e, i as int));
                    }
                    return Err(e);
                },
            };
            let dim = match params.integer(join(m.name.as_str(), ".dim").as_str()) {
                Ok(d) => d as usize,
                Err(e) => {
                    proof {
                        assert(faulty_at(all, a, e, i as int));
                    }
                    return Err(e);
                },
            };
            encoders.push(ModalityChoice { name: m.name.clone(), encoder, dim });
            i += 1;
        }
        let label = match params.categorical("fusion") {
            Ok(s) => s,
            Err(e) => {
                return Err(e);
            },
        };
        match Fusion::from_label(label) {
            Some(fusion) => {
                let plan = MultimodalPlan { encoders, fusion };
                proof {
                    assert(plan.choices() =~= decoded(all, a));
                }
                Ok(plan)
            },
            None => Err(Error::Objective("unknown fusion strategy".to_owned())),
        }
    }
}

/// The chosen encoder and projection dimension for one modality.
#[derive(Debug)]
pub struct ModalityChoice {
    /// The modality name.
    pub name: String,
    /// The selected encoder.
    pub encoder: String,
    /// The projection dimension.
    pub dim: usize,
}

/// What a [`ModalityChoice`] stands for in contracts.
pub struct ChoiceModel {
    /// The modality name.
    pub name: Seq<char>,
    /// The selected encoder.
    pub encoder: Seq<char>,
    /// The projection dimension.
    pub dim: usize,
}

impl View for ModalityChoice {
    type V = ChoiceModel;

    open spec fn view(&self) -> ChoiceModel {
        ChoiceModel { name: self.name@, encoder: self.encoder@, dim: self.dim }
    }
}

/// A decoded multimodal configuration.
#[derive(Debug)]
pub struct MultimodalPlan {
    /// One choice per modality.
    pub encoders: Vec<ModalityChoice>,
    /// How the projected modality features are fused.
    pub fusion: Fusion,
}

/// The sum of dimensions.
pub open spec fn total_dim(choices: Seq<ChoiceModel>) -> int
    decreases choices.len(),
{
    if choices.len() == 0 {
        0
    } else {
        total_dim(choices.drop_last()) + choices.last().dim
    }
}

/// Whether `i` is the first choice whose dimension differs from that of the first.
pub open spec fn first_odd(choices: Seq<ChoiceModel>, i: int) -> bool {
    &&& 0 <= i < choices.len()
    &&& choices[i].dim != choices[0].dim
    &&& forall|k: int| 0 <= k < i ==> (#[trigger] choices[k]).dim == choices[0].dim
}

/// Whether every choice has the dimension of the first.
pub open spec fn equal_dims(choices: Seq<ChoiceModel>) -> bool {
    forall|i: int| 0 <= i < choices.len() ==> (#[trigger] choices[i]).dim == choices[0].dim
}

/// The complaint that two choices have different dimensions.
pub open spec fn mismatch_text(f: Fusion, a: ChoiceModel, b: ChoiceModel) -> Seq<char> {
    f.title() + " fusion needs equal modality dims, but '"@ + a.name + "' is "@ + text::decimal(
        a.dim as nat,
    ) + " and '"@ + b.name + "' is "@ + text::decimal(b.dim as nat)
}

proof fn total_grows(choices: Seq<ChoiceModel>, i: int)
    requires
        0 <= i <= choices.len(),
    ensures
        0 <= total_dim(choices.take(i)) <= total_dim(choices),
    decreases choices.len(),
{
    if i == choices.len() {
        assert(choices.take(i) =~= choices);
        if i > 0 {
            total_grows(choices.drop_last(), choices.len() - 1);
            assert(choices.drop_last().take(choices.len() - 1) =~= choices.drop_last());
        }
    } else {
        total_grows(choices.drop_last(), i);
        assert(choices.drop_last().take(i) =~= choices.take(i));
    }
}

impl MultimodalPlan {
    /// The choices.
    pub open spec fn choices(self) -> Seq<ChoiceModel> {
        models::of(self.encoders@)
    }

    /// Whether the plan can be scheduled: it has a modality, and an element-wise fusion meets
    /// equal dimensions.
    pub open spec fn compatible(self) -> bool {
        self.choices().len() > 0 && (self.fusion.elementwise() ==> equal_dims(self.choices()))
    }

    /// Validate dimension compatibility before scheduling: element-wise fusions require every
    /// modality to project to the same dimension. The error names the offending dimensions.
    pub fn validate(&self) -> (r: Result<(), Error>)
        ensures
            r is Ok <==> self.compatible(),
            r matches Err(e) ==> (e matches Error::Objective(m) && if self.choices().len() == 0 {
                m@ == "a multimodal plan needs ≥1 modality"@
            } else {
                exists|i: int| #[trigger]
                    first_odd(self.choices(), i) && m@ == mismatch_text(
                        self.fusion,
                        self.choices()[0],
                        self.choices()[i],
                    )
            }),
    {
        let ghost all = self.choices();
        if self.encoders.len() == 0 {
            return Err(Error::Objective("a multimodal plan needs ≥1 modality".to_owned()));
        }
        if self.fusion.requires_equal_dims() {
            let first = &self.encoders[0];
            let mut i: usize = 0;
            proof {
                assert(all[0] == first@);
            }
            while i < self.encoders.len()
                invariant
                    i <= self.encoders@.len(),
                    self.encoders@.len() > 0,
                    all == self.choices(),
                    first == self.encoders@[0],
                    all[0] == first@,
                    self.fusion.elementwise(),
                    forall|k: int| 0 <= k < i ==> (#[trigger] all[k]).dim == all[0].dim,
                decreases self.encoders@.len() - i,
            {
                let m = &self.encoders[i];
                proof {
                    assert(all[i as int] == m@);
                }
                if m.dim != first.dim {
                    let mut s = join(
                        self.fusion.title_text(),
                        " fusion needs equal modality dims, but '",
                    );
                    s = join(s.as_str(), first.name.as_str());
                    s = join(s.as_str(), "' is ");
                    s = join(s.as_str(), decimal_text(first.dim as u64).as_str());
                    s = join(s.as_str(), " and '");
                    s = join(s.as_str(), m.name.as_str());
                    s = join(s.as_str(), "' is ");
                    s = join(s.as_str(), decimal_text(m.dim as u64).as_str());
                    proof {
                        assert(first_odd(all, i as int));
                        assert(s@ == mismatch_text(self.fusion, all[0], all[i as int]));
                    }
                    return Err(Error::Objective(s));
                }
                i += 1;
            }
        }
        Ok(())
    }

    /// The dimension of the fused representation, assuming [`MultimodalPlan::validate`] passed.
    pub fn fused_dim(&self) -> (d: usize)
        requires
            self.fusion == Fusion::Concat ==> total_dim(self.choices()) <= usize::MAX,
        ensures
            d == match self.fusion {
                Fusion::Concat => total_dim(self.choices()),
                _ => if self.choices().len() > 0 {
                    self.choices()[0].dim as int
                } else {
                    0
                },
            },
    {
        match self.fusion {
            Fusion::Concat => {
                let ghost all = self.choices();
                let mut d: usize = 0;
                let mut i: usize = 0;
                proof {
                    assert(all.take(0).len() == 0);
                }
                while i < self.encoders.len()
                    invariant
                        i <= self.encoders@.len(),
                        all == self.choices(),
                        total_dim(all) <= usize::MAX,
                        d == total_dim(all.take(i as int)),
                    decreases self.encoders@.len() - i,
                {
                    proof {
                        total_grows(all, i + 1);
                        assert(all.take(i + 1).drop_last() =~= all.take(i as int));
                        assert(all.take(i + 1).last() == self.encoders@[i as int]@);
                    }
                    d += self.encoders[i].dim;
                    i += 1;
                }
                proof {
                    assert(all.take(i as int) =~= all);
                }
                d
            },
            _ => if self.encoders.len() > 0 {
                proof {
                    assert(self.choices()[0] == self.encoders@[0]@);
                }
                self.encoders[0].dim
            } else {
                0
            },
        }
    }
}

/// The arithmetic of element-wise fusion. Nothing is assumed of the answers.
pub trait Blend<T> {
    /// The sum of elements, added in order.
    fn total(&self, values: &Vec<T>) -> T;

    /// An `n`-th of a sum.
    fn share(&self, total: T, n: usize) -> T;
}

/// Whether `r` is an answer to the sum of elements.
pub open spec fn is_total<T, B: Blend<T>>(blend: &B, values: Seq<T>, r: T) -> bool {
    exists|v: Vec<T>| v@ == values && #[trigger] call_ensures(B::total, (blend, &v), r)
}

/// Whether `r` is an answer to an `n`-th of a sum.
pub open spec fn is_nth<T, B: Blend<T>>(blend: &B, total: T, n: usize, r: T) -> bool {
    call_ensures(B::share, (blend, total, n), r)
}

/// Whether `r` blends elements: their sum, or their mean.
pub open spec fn is_blend<T, B: Blend<T>>(
    blend: &B,
    values: Seq<T>,
    fusion: Fusion,
    r: T,
) -> bool {
    if fusion == Fusion::Mean {
        exists|total: T| #[trigger]
            is_total(blend, values, total) && is_nth(blend, total, values.len() as usize, r)
    } else {
        is_total(blend, values, r)
    }
}

/// The `k`-th elements of vectors.
pub open spec fn across<T>(features: Seq<Vec<T>>, k: int) -> Seq<T> {
    features.map_values(|f: Vec<T>| f@[k])
}

/// The elements of vectors, one vector after the other.
pub open spec fn concatenated<T>(features: Seq<Vec<T>>) -> Seq<T>
    decreases features.len(),
{
    if features.len() == 0 {
        Seq::empty()
    } else {
        concatenated(features.drop_last()) + features.last()@
    }
}

/// Whether every vector is as long as the first.
pub open spec fn equal_lengths<T>(features: Seq<Vec<T>>) -> bool {
    forall|i: int|
        0 <= i < features.len() ==> (#[trigger] features[i])@.len() == features[0]@.len()
}

/// The `k`-th elements of vectors.
pub fn column<T: Copy>(features: &Vec<Vec<T>>, k: usize) -> (c: Vec<T>)
    requires
        forall|i: int| 0 <= i < features@.len() ==> k < (#[trigger] features@[i])@.len(),
    ensures
        c@ == features@.map_values(|f: Vec<T>| f@[k as int]),
{
    let mut c: Vec<T> = Vec::new();
    let mut i: usize = 0;
    while i < features.len()
        invariant
            i <= features@.len(),
            forall|i: int| 0 <= i < features@.len() ==> k < (#[trigger] features@[i])@.len(),
            c@.len() == i,
            forall|j: int| 0 <= j < i ==> #[trigger] c@[j] == features@[j]@[k as int],
        decreases features@.len() - i,
    {
        c.push(features[i][k]);
        i += 1;
    }
    proof {
        assert(c@ =~= features@.map_values(|f: Vec<T>| f@[k as int]));
    }
    c
}

/// Fuse per-modality feature vectors according to `fusion`. Element-wise strategies reject
/// vectors of different lengths.
pub fn fuse<T: Copy, B: Blend<T>>(features: &Vec<Vec<T>>, fusion: Fusion, blend: &B) -> (r:
    Result<Vec<T>, Error>)
    ensures
        r is Ok <==> features@.len() > 0 && (fusion.elementwise() ==> equal_lengths(features@)),
        match r {
            Ok(v) => if fusion == Fusion::Concat {
                v@ == concatenated(features@)
            } else {
                v@.len() == features@[0]@.len() && forall|k: int|
                    0 <= k < v@.len() ==> is_blend(
                        blend,
                        across(features@, k),
                        fusion,
                        #[trigger] v@[k],
                    )
            },
            Err(e) => e matches Error::Objective(m) && m@ == if features@.len() == 0 {
                "nothing to fuse"@
            } else {
                "element-wise fusion requires equal-length modality vectors"@
            },
        },
{
    if features.len() == 0 {
        return Err(Error::Objective("nothing to fuse".to_owned()));
    }
    let mut out: Vec<T> = Vec::new();
    if fusion == Fusion::Concat {
        let mut i: usize = 0;
        proof {
            assert(features@.take(0).len() == 0);
        }
        while i < features.len()
            invariant
                i <= features@.len(),
                out@ == concatenated(features@.take(i as int)),
            decreases features@.len() - i,
        {
            let ghost start = out@;
            let f = &features[i];
            let mut j: usize = 0;
            while j < f.len()
                invariant
                    j <= f@.len(),
                    out@ == start + f@.take(j as int),
                decreases f@.len() - j,
            {
                out.push(f[j]);
                proof {
                    assert(f@.take(j + 1) =~= f@.take(j as int).push(f@[j as int]));
                    assert(out@ =~= start + f@.take(j + 1));
                }
                j += 1;
            }
            proof {
                assert(f@.take(j as int) =~= f@);
                assert(features@.take(i + 1).drop_last() =~= features@.take(i as int));
                assert(features@.take(i + 1).last() == *f);
            }
            i += 1;
        }
        proof {
            assert(features@.take(i as int) =~= features@);
        }
        return Ok(out);
    }
    let d = features[0].len();
    let mut i: usize = 0;
    while i < features.len()
        invariant
            i <= features@.len(),
            features@.len() > 0,
            d == features@[0]@.len(),
            fusion.elementwise(),
            forall|k: int| 0 <= k < i ==> (#[trigger] features@[k])@.len() == d,
        decreases features@.len() - i,
    {
        if features[i].len() != d {
            return Err(
                Error::Objective(
                    "element-wise fusion requires equal-length modality vectors".to_owned(),
                ),
            );
        }
        i += 1;
    }
    let mut k: usize = 0;
    while k < d
        invariant
            k <= d,
            out@.len() == k,
            forall|i: int| 0 <= i < features@.len() ==> (#[trigger] features@[i])@.len() == d,
            forall|j: int|
                0 <= j < k ==> is_blend(blend, across(features@, j), fusion, #[trigger] out@[j]),
        decreases d - k,
    {
        let values = column(features, k);
        let total = blend.total(&values);
        proof {
            assert(values@ =~= across(features@, k as int));
            assert(is_total(blend, across(features@, k as int), total));
        }
        let v = if fusion == Fusion::Mean {
            blend.share(total, features.len())
        } else {
            total
        };
        proof {
            assert(is_blend(blend, across(features@, k as int), fusion, v));
        }
        out.push(v);
        k += 1;
    }
    Ok(out)
}

proof fn modality_is_declared(ms: ModalityModels, i: int)
    requires
        0 <= i < ms.len(),
    ensures
        modality_defs(ms).contains(ms[i].encoder_def()),
        modality_defs(ms).contains(ms[i].dim_def()),
        modality_defs(ms).len() == 2 * ms.len(),
    decreases ms.len(),
{
    let rest = modality_defs(ms.drop_last());
    let all = modality_defs(ms);
    defs_length(ms.drop_last());
    if i < ms.len() - 1 {
        modality_is_declared(ms.drop_last(), i);
        let x = rest.index_of(ms[i].encoder_def());
        assert(all[x] == ms[i].encoder_def());
        let y = rest.index_of(ms[i].dim_def());
        assert(all[y] == ms[i].dim_def());
    } else {
        assert(all[rest.len() as int] == ms[i].encoder_def());
        assert(all[rest.len() as int + 1] == ms[i].dim_def());
    }
}

proof fn defs_length(ms: ModalityModels)
    ensures
        modality_defs(ms).len() == 2 * ms.len(),
    decreases ms.len(),
{
    if ms.len() > 0 {
        defs_length(ms.drop_last());
    }
}

/// Every legal assignment decodes to a plan: for each modality one of its encoders and a
/// dimension within its range, and one of the fusion strategies.
pub proof fn law_legal_assignments_decode(
    ms: ModalityModels,
    fusions: Seq<Fusion>,
    a: Assignment,
)
    requires
        forall|i: int| 0 <= i < ms.len() ==> (#[trigger] ms[i]).well_formed(),
        space::legal(encoded(ms, fusions), a),
    ensures
        decodes(ms, a),
        forall|i: int|
            0 <= i < ms.len() ==> ms[i].encoders.contains(
                (#[trigger] decoded(ms, a)[i]).encoder,
            ) && ms[i].min_dim <= decoded(ms, a)[i].dim <= ms[i].max_dim,
        exists|f: Fusion| #[trigger]
            fusions.contains(f) && nas::text_in(a, "fusion"@) == Some(f.label()),
{
    let defs = encoded(ms, fusions);
    let n = modality_defs(ms).len() as int;
    assert forall|i: int| 0 <= i < ms.len() implies (#[trigger] ms[i]).choice_in(a) is Some
        && ms[i].encoders.contains((ms[i].choice_in(a)->0).encoder) && ms[i].min_dim <= (
    ms[i].choice_in(a)->0).dim <= ms[i].max_dim by {
        modality_is_declared(ms, i);
        let x = modality_defs(ms).index_of(ms[i].encoder_def());
        assert(defs[x] == ms[i].encoder_def());
        assert(defs[x].active(a));
        assert(defs[x].dist.fits(a[defs[x].name]));
        let y = modality_defs(ms).index_of(ms[i].dim_def());
        assert(defs[y] == ms[i].dim_def());
        assert(defs[y].active(a));
        assert(defs[y].dist.fits(a[defs[y].name]));
        assert(ms[i].well_formed());
    }
    assert(defs[n] == fusion_def(fusions));
    assert(defs[n].active(a));
    assert(defs[n].dist.fits(a["fusion"@]));
    let labels = fusions.map_values(|f: Fusion| f.label());
    let chosen = a["fusion"@]->Categorical_0;
    let k = labels.index_of(chosen);
    assert(fusions.contains(fusions[k]));
}

/// A validated plan fuses: vectors of the planned dimensions are accepted.
pub proof fn law_validated_plans_fuse<T>(plan: MultimodalPlan, features: Seq<Vec<T>>)
    requires
        plan.compatible(),
        features.len() == plan.choices().len(),
        forall|i: int|
            0 <= i < features.len() ==> (#[trigger] features[i])@.len() == plan.choices()[i].dim,
    ensures
        features.len() > 0,
        plan.fusion.elementwise() ==> equal_lengths(features),
{
    if plan.fusion.elementwise() {
        assert forall|i: int| 0 <= i < features.len() implies (#[trigger] features[i])@.len()
            == features[0]@.len() by {
            assert(plan.choices()[i].dim == plan.choices()[0].dim);
        }
    }
}

proof fn concatenated_adds_up<T>(features: Seq<Vec<T>>, choices: Seq<ChoiceModel>)
    requires
        features.len() == choices.len(),
        forall|i: int|
            0 <= i < features.len() ==> (#[trigger] features[i])@.len() == choices[i].dim,
    ensures
        concatenated(features).len() == total_dim(choices),
    decreases features.len(),
{
    if features.len() > 0 {
        let (f, c) = (features.drop_last(), choices.drop_last());
        assert forall|i: int| 0 <= i < f.len() implies (#[trigger] f[i])@.len() == c[i].dim by {
            assert(f[i] == features[i]);
        }
        concatenated_adds_up(f, c);
        assert(features[features.len() - 1]@.len() == choices.last().dim);
    }
}

/// Features that are put side by side take as much room as all of them together, and each stands
/// where those before it end.
pub proof fn law_concatenation_keeps_everything<T>(
    features: Seq<Vec<T>>,
    choices: Seq<ChoiceModel>,
    i: int,
    k: int,
)
    requires
        features.len() == choices.len(),
        forall|i: int|
            0 <= i < features.len() ==> (#[trigger] features[i])@.len() == choices[i].dim,
        0 <= i < features.len(),
        0 <= k < choices[i].dim,
    ensures
        concatenated(features).len() == total_dim(choices),
        0 <= total_dim(choices.take(i)) + k < concatenated(features).len(),
        concatenated(features)[total_dim(choices.take(i)) + k] == features[i]@[k],
    decreases features.len(),
{
    concatenated_adds_up(features, choices);
    let (f, c) = (features.drop_last(), choices.drop_last());
    assert forall|j: int| 0 <= j < f.len() implies (#[trigger] f[j])@.len() == c[j].dim by {
        assert(f[j] == features[j]);
    }
    concatenated_adds_up(f, c);
    if i < f.len() {
        law_concatenation_keeps_everything(f, c, i, k);
        assert(choices.take(i) =~= c.take(i));
        assert(f[i] == features[i]);
    } else {
        assert(choices.take(i) =~= c);
        assert(features[i] == features.last());
    }
}

/// A sum fuses by adding up, and a mean by taking as many-th a part of the sum as there are
/// features.
pub proof fn law_means_are_shares_of_sums<T, B: Blend<T>>(
    blend: &B,
    features: Seq<Vec<T>>,
    k: int,
    fusion: Fusion,
    v: T,
)
    requires
        is_blend(blend, across(features, k), fusion, v),
        fusion.elementwise(),
        features.len() <= usize::MAX,
    ensures
        fusion == Fusion::Sum ==> is_total(
            blend,
            Seq::new(features.len(), |i: int| features[i]@[k]),
            v,
        ),
        fusion == Fusion::Mean ==> exists|total: T|
            is_total(blend, Seq::new(features.len(), |i: int| features[i]@[k]), total)
                && #[trigger] is_nth(blend, total, features.len() as usize, v),
{
    assert(across(features, k) =~= Seq::new(features.len(), |i: int| features[i]@[k]));
}

} // verus!
