//! Concrete parameter values and the [`ParamSet`] that groups them for a trial.

use vstd::prelude::*;
use crate::error::Error;
use crate::names::NameMap;
use crate::scalar::Scalar;

verus! {

/// A single concrete parameter value sampled from a distribution.
#[derive(Debug)]
pub enum ParamValue {
    /// A floating-point value.
    Float(Scalar),
    /// An integer value.
    Int(i64),
    /// One choice from a categorical distribution.
    Categorical(String),
    /// A boolean.
    Bool(bool),
}

/// What a [`ParamValue`] stands for in contracts.
pub enum ParamModel {
    /// A floating-point value.
    Float(Scalar),
    /// An integer value.
    Int(i64),
    /// One choice from a categorical distribution.
    Categorical(Seq<char>),
    /// A boolean.
    Bool(bool),
}

impl View for ParamValue {
    type V = ParamModel;

    open spec fn view(&self) -> ParamModel {
        match self {
            ParamValue::Float(v) => ParamModel::Float(*v),
            ParamValue::Int(v) => ParamModel::Int(*v),
            ParamValue::Categorical(s) => ParamModel::Categorical(s@),
            ParamValue::Bool(b) => ParamModel::Bool(*b),
        }
    }
}

/// Equality of parameter values: floats compare as numbers, everything else by identity.
pub open spec fn equal_values(a: ParamModel, b: ParamModel) -> bool {
    match (a, b) {
        (ParamModel::Float(x), ParamModel::Float(y)) => x.same(y),
        _ => a == b,
    }
}

/// The label of each kind of value.
pub open spec fn kind_label(v: ParamModel) -> Seq<char> {
    match v {
        ParamModel::Float(_) => "float"@,
        ParamModel::Int(_) => "int"@,
        ParamModel::Categorical(_) => "categorical"@,
        ParamModel::Bool(_) => "bool"@,
    }
}

impl Clone for ParamValue {
    fn clone(&self) -> (r: Self)
        ensures
            r == *self,
    {
        match self {
            ParamValue::Float(v) => ParamValue::Float(*v),
            ParamValue::Int(v) => ParamValue::Int(*v),
            ParamValue::Categorical(s) => ParamValue::Categorical(s.clone()),
            ParamValue::Bool(b) => ParamValue::Bool(*b),
        }
    }
}

impl PartialEq for ParamValue {
    fn eq(&self, other: &Self) -> (r: bool) {
        match (self, other) {
            (ParamValue::Float(a), ParamValue::Float(b)) => a.equals(b),
            (ParamValue::Int(a), ParamValue::Int(b)) => *a == *b,
            (ParamValue::Categorical(a), ParamValue::Categorical(b)) => *a == *b,
            (ParamValue::Bool(a), ParamValue::Bool(b)) => *a == *b,
            _ => false,
        }
    }
}

impl vstd::std_specs::cmp::PartialEqSpecImpl for ParamValue {
    open spec fn obeys_eq_spec() -> bool {
        true
    }

    open spec fn eq_spec(&self, other: &Self) -> bool {
        equal_values(self@, other@)
    }
}

impl ParamValue {
    /// A short, stable label used in type-mismatch error messages.
    pub fn kind(&self) -> (r: &'static str)
        ensures
            r@ == kind_label(self@),
    {
        match self {
            ParamValue::Float(_) => "float",
            ParamValue::Int(_) => "int",
            ParamValue::Categorical(_) => "categorical",
            ParamValue::Bool(_) => "bool",
        }
    }

    /// This value if it is a float.
    pub fn as_float(&self) -> (r: Option<Scalar>)
        ensures
            r == (match self@ {
                ParamModel::Float(v) => Some(v),
                _ => None,
            }),
    {
        match self {
            ParamValue::Float(v) => Some(*v),
            _ => None,
        }
    }

    /// This value if it is an int.
    pub fn as_int(&self) -> (r: Option<i64>)
        ensures
            r == (match self@ {
                ParamModel::Int(v) => Some(v),
                _ => None,
            }),
    {
        match self {
            ParamValue::Int(v) => Some(*v),
            _ => None,
        }
    }

    /// This value as a categorical `&str` if it is one.
    pub fn as_str(&self) -> (r: Option<&str>)
        ensures
            r is Some <==> self@ is Categorical,
            r matches Some(s) ==> self@ == ParamModel::Categorical(s@),
    {
        match self {
            ParamValue::Categorical(s) => Some(s.as_str()),
            _ => None,
        }
    }

    /// This value if it is a `bool`.
    pub fn as_bool(&self) -> (r: Option<bool>)
        ensures
            r == (match self@ {
                ParamModel::Bool(v) => Some(v),
                _ => None,
            }),
    {
        match self {
            ParamValue::Bool(b) => Some(*b),
            _ => None,
        }
    }
}

/// An ordered, named collection of concrete parameter values: the output of a sampler and the
/// input to an objective evaluation. Walking it is deterministic whatever the insertion order.
#[derive(Debug)]
pub struct ParamSet {
    values: NameMap<ParamValue>,
}

/// The model of a parameter set: a map from names to values.
pub type Assignment = Map<Seq<char>, ParamModel>;

impl View for ParamSet {
    type V = Assignment;

    closed spec fn view(&self) -> Assignment {
        self.values@.map_values(|v: ParamValue| v@)
    }
}

/// `e` says that `name` is absent.
pub open spec fn is_missing(e: Error, name: Seq<char>) -> bool {
    e matches Error::MissingParam(n) && n@ == name
}

/// `e` says that `name` holds a value of kind `actual` where `expected` was wanted.
pub open spec fn is_mismatch(
    e: Error,
    name: Seq<char>,
    actual: Seq<char>,
    expected: Seq<char>,
) -> bool {
    e matches Error::ParamTypeMismatch { name: n, actual: a, expected: x } && n@ == name && a@
        == actual && x@ == expected
}

/// The float that an assignment gives to a name, if it does.
pub open spec fn float_in(params: Map<Seq<char>, ParamModel>, name: Seq<char>) -> Option<Scalar> {
    if params.contains_key(name) {
        match params[name] {
            ParamModel::Float(x) => Some(x),
            _ => None,
        }
    } else {
        None
    }
}

/// The integer that an assignment gives to a name, if it does.
pub open spec fn integer_in(params: Map<Seq<char>, ParamModel>, name: Seq<char>) -> Option<i64> {
    if params.contains_key(name) {
        match params[name] {
            ParamModel::Int(x) => Some(x),
            _ => None,
        }
    } else {
        None
    }
}

/// `e` says why an assignment gives no value of the kind `expected` to `name`: it is absent, or
/// of another kind.
pub open spec fn is_refusal(
    e: Error,
    params: Map<Seq<char>, ParamModel>,
    name: Seq<char>,
    expected: Seq<char>,
) -> bool {
    if params.contains_key(name) {
        is_mismatch(e, name, kind_label(params[name]), expected)
    } else {
        is_missing(e, name)
    }
}

fn missing(name: &str) -> (e: Error)
    ensures
        is_missing(e, name@),
{
    Error::MissingParam(name.to_owned())
}

fn mismatch(name: &str, v: &ParamValue, expected: &str) -> (e: Error)
    ensures
        is_mismatch(e, name@, kind_label(v@), expected@),
{
    Error::ParamTypeMismatch {
        name: name.to_owned(),
        actual: v.kind().to_owned(),
        expected: expected.to_owned(),
    }
}

impl ParamSet {
    /// The pairs in the order in which they are walked.
    pub closed spec fn pairs(self) -> Seq<(String, ParamValue)> {
        self.values.pairs()
    }

    /// An empty parameter set.
    pub fn new() -> (p: Self)
        ensures
            p@ == Assignment::empty(),
    {
        let p = ParamSet { values: NameMap::new() };
        proof {
            assert(p@ =~= Assignment::empty());
        }
        p
    }

    /// Insert or overwrite a named value.
    pub fn insert(&mut self, name: &str, value: ParamValue)
        ensures
            final(self)@ == old(self)@.insert(name@, value@),
    {
        self.values.insert(name, value);
        proof {
            assert(self@ =~= old(self)@.insert(name@, value@));
        }
    }

    /// Builder-style insert.
    pub fn with(self, name: &str, value: ParamValue) -> (p: Self)
        ensures
            p@ == self@.insert(name@, value@),
    {
        let mut p = self;
        p.insert(name, value);
        p
    }

    /// Look up a raw value by name.
    pub fn get(&self, name: &str) -> (r: Option<&ParamValue>)
        ensures
            r is Some <==> self@.contains_key(name@),
            r matches Some(v) ==> v@ == self@[name@],
    {
        self.values.get(name)
    }

    /// Whether a parameter is present.
    pub fn contains(&self, name: &str) -> (r: bool)
        ensures
            r == self@.contains_key(name@),
    {
        self.values.contains(name)
    }

    /// Number of parameters.
    pub fn len(&self) -> (n: usize)
        ensures
            n == self@.len(),
            n == self.pairs().len(),
            self@.dom().finite(),
    {
        proof {
            assert(self@.dom() =~= self.values@.dom());
        }
        self.values.len()
    }

    /// Whether the set is empty.
    pub fn is_empty(&self) -> (r: bool)
        ensures
            r == (self@.dom() =~= Set::empty()),
    {
        proof {
            assert(self@.dom() =~= self.values@.dom());
        }
        self.values.is_empty()
    }

    /// The name/value pairs in deterministic (sorted) order.
    pub fn iter(&self) -> (r: Vec<(&String, &ParamValue)>)
        ensures
            r@.len() == self.pairs().len(),
            forall|i: int|
                0 <= i < r@.len() ==> *(#[trigger] r@[i]).0 == self.pairs()[i].0 && *r@[i].1
                    == self.pairs()[i].1,
            crate::names::sorted_pairs(self.pairs()),
            self@ == crate::names::entries_map(self.pairs()).map_values(|v: ParamValue| v@),
    {
        self.values.iter()
    }

    /// The `i`-th name/value pair in sorted order.
    pub fn entry(&self, i: usize) -> (r: (&String, &ParamValue))
        requires
            i < self.pairs().len(),
        ensures
            *r.0 == self.pairs()[i as int].0,
            *r.1 == self.pairs()[i as int].1,
            self@.contains_key(r.0@),
            self@[r.0@] == r.1@,
    {
        self.values.entry(i)
    }

    /// Typed accessor for a float parameter.
    pub fn float(&self, name: &str) -> (r: Result<Scalar, Error>)
        ensures
            match r {
                Ok(v) => self@.contains_key(name@) && self@[name@] == ParamModel::Float(v),
                Err(e) => if self@.contains_key(name@) {
                    self@[name@] !is Float && is_mismatch(
                        e,
                        name@,
                        kind_label(self@[name@]),
                        "float"@,
                    )
                } else {
                    is_missing(e, name@)
                },
            },
    {
        match self.get(name) {
            None => Err(missing(name)),
            Some(v) => match v.as_float() {
                Some(x) => Ok(x),
                None => Err(mismatch(name, v, "float")),
            },
        }
    }

    /// Typed accessor for an int parameter.
    pub fn integer(&self, name: &str) -> (r: Result<i64, Error>)
        ensures
            match r {
                Ok(v) => self@.contains_key(name@) && self@[name@] == ParamModel::Int(v),
                Err(e) => if self@.contains_key(name@) {
                    self@[name@] !is Int && is_mismatch(
                        e,
                        name@,
                        kind_label(self@[name@]),
                        "int"@,
                    )
                } else {
                    is_missing(e, name@)
                },
            },
    {
        match self.get(name) {
            None => Err(missing(name)),
            Some(v) => match v.as_int() {
                Some(x) => Ok(x),
                None => Err(mismatch(name, v, "int")),
            },
        }
    }

    /// Typed accessor for a categorical parameter.
    pub fn categorical(&self, name: &str) -> (r: Result<&str, Error>)
        ensures
            match r {
                Ok(v) => self@.contains_key(name@) && self@[name@] == ParamModel::Categorical(v@),
                Err(e) => if self@.contains_key(name@) {
                    self@[name@] !is Categorical && is_mismatch(
                        e,
                        name@,
                        kind_label(self@[name@]),
                        "categorical"@,
                    )
                } else {
                    is_missing(e, name@)
                },
            },
    {
        match self.get(name) {
            None => Err(missing(name)),
            Some(v) => match v.as_str() {
                Some(x) => Ok(x),
                None => Err(mismatch(name, v, "categorical")),
            },
        }
    }

    /// Typed accessor for a boolean parameter.
    pub fn boolean(&self, name: &str) -> (r: Result<bool, Error>)
        ensures
            match r {
                Ok(v) => self@.contains_key(name@) && self@[name@] == ParamModel::Bool(v),
                Err(e) => if self@.contains_key(name@) {
                    self@[name@] !is Bool && is_mismatch(
                        e,
                        name@,
                        kind_label(self@[name@]),
                        "bool"@,
                    )
                } else {
                    is_missing(e, name@)
                },
            },
    {
        match self.get(name) {
            None => Err(missing(name)),
            Some(v) => match v.as_bool() {
                Some(x) => Ok(x),
                None => Err(mismatch(name, v, "bool")),
            },
        }
    }
}

impl Clone for ParamSet {
    fn clone(&self) -> (p: Self)
        ensures
            p@ == self@,
            p.pairs() == self.pairs(),
    {
        let p = ParamSet { values: self.values.clone() };
        proof {
            assert(p.values.pairs() =~= self.values.pairs());
        }
        p
    }
}

impl Default for ParamSet {
    fn default() -> (p: Self)
        ensures
            p@ == Assignment::empty(),
    {
        ParamSet::new()
    }
}

} // verus!
