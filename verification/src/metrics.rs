//! Named metrics and optimization directions.
//!
//! Objective results are named rather than positional, so quality, latency, memory and domain
//! metrics coexist in one objective. A study declares one direction per named objective.

use vstd::prelude::*;
use crate::names::NameMap;
use crate::scalar::Scalar;

verus! {

/// Whether an objective should be minimized or maximized.
#[derive(Debug, Clone, Copy, PartialEq, Eq, Structural)]
pub enum Direction {
    /// Lower is better (e.g. loss, latency).
    Minimize,
    /// Higher is better (e.g. accuracy).
    Maximize,
}

impl Direction {
    /// `a` is a better value than `b`.
    pub open spec fn better(self, a: Scalar, b: Scalar) -> bool {
        match self {
            Direction::Minimize => a.less(b),
            Direction::Maximize => b.less(a),
        }
    }

    /// Returns true if `a` is a better value than `b` under this direction.
    pub fn is_better(&self, a: Scalar, b: Scalar) -> (r: bool)
        ensures
            r == self.better(a, b),
    {
        match self {
            Direction::Minimize => a.lt(&b),
            Direction::Maximize => b.lt(&a),
        }
    }

    /// The worst possible value under this direction, useful as a fold seed.
    pub fn worst(&self) -> (r: Scalar)
        ensures
            !r.nan(),
            r.key() == match self {
                Direction::Minimize => crate::scalar::INFINITE as int,
                Direction::Maximize => -(crate::scalar::INFINITE as int),
            },
            forall|x: Scalar| !self.better(r, x),
            forall|x: Scalar| !x.nan() && x.key() != r.key() ==> #[trigger] self.better(x, r),
    {
        match self {
            Direction::Minimize => Scalar::infinity(),
            Direction::Maximize => Scalar::neg_infinity(),
        }
    }
}

/// No value is better than itself, and two values are never each better than the other.
pub proof fn law_better_is_strict(d: Direction, a: Scalar, b: Scalar)
    ensures
        !d.better(a, a),
        !(d.better(a, b) && d.better(b, a)),
{
}

/// Being better is transitive.
pub proof fn law_better_is_transitive(d: Direction, a: Scalar, b: Scalar, c: Scalar)
    requires
        d.better(a, b),
        d.better(b, c),
    ensures
        d.better(a, c),
{
}

/// A named objective paired with its optimization direction.
#[derive(Debug)]
pub struct Objective {
    /// The metric name reported by the objective (must match a key in `NamedMetrics`).
    pub name: String,
    /// Whether to minimize or maximize this metric.
    pub direction: Direction,
}

/// What an [`Objective`] stands for in contracts.
pub struct ObjectiveModel {
    /// The metric name.
    pub name: Seq<char>,
    /// Whether lower or higher is better.
    pub direction: Direction,
}

impl View for Objective {
    type V = ObjectiveModel;

    open spec fn view(&self) -> ObjectiveModel {
        ObjectiveModel { name: self.name@, direction: self.direction }
    }
}

impl Objective {
    /// A metric to be minimized.
    pub fn minimize(name: &str) -> (o: Objective)
        ensures
            o@ == (ObjectiveModel { name: name@, direction: Direction::Minimize }),
    {
        Objective { name: name.to_owned(), direction: Direction::Minimize }
    }

    /// A metric to be maximized.
    pub fn maximize(name: &str) -> (o: Objective)
        ensures
            o@ == (ObjectiveModel { name: name@, direction: Direction::Maximize }),
    {
        Objective { name: name.to_owned(), direction: Direction::Maximize }
    }
}

impl Clone for Objective {
    fn clone(&self) -> (o: Self)
        ensures
            o == *self,
    {
        Objective { name: self.name.clone(), direction: self.direction }
    }
}

/// A bag of named scalar metrics reported by a trial (intermediate or final).
#[derive(Debug)]
pub struct NamedMetrics {
    values: NameMap<Scalar>,
}

impl View for NamedMetrics {
    type V = Map<Seq<char>, Scalar>;

    closed spec fn view(&self) -> Map<Seq<char>, Scalar> {
        self.values@
    }
}

impl NamedMetrics {
    /// The names in the order in which they are walked.
    pub closed spec fn pairs(self) -> Seq<(String, Scalar)> {
        self.values.pairs()
    }

    /// An empty metrics bag.
    pub fn new() -> (m: Self)
        ensures
            m@ == Map::<Seq<char>, Scalar>::empty(),
    {
        NamedMetrics { values: NameMap::new() }
    }

    /// Construct from a single name/value pair.
    pub fn single(name: &str, value: Scalar) -> (m: Self)
        ensures
            m@ == Map::<Seq<char>, Scalar>::empty().insert(name@, value),
    {
        let mut m = NamedMetrics::new();
        m.insert(name, value);
        m
    }

    /// Insert or overwrite a metric.
    pub fn insert(&mut self, name: &str, value: Scalar)
        ensures
            final(self)@ == old(self)@.insert(name@, value),
    {
        self.values.insert(name, value);
    }

    /// Builder-style insert.
    pub fn with(self, name: &str, value: Scalar) -> (m: Self)
        ensures
            m@ == self@.insert(name@, value),
    {
        let mut m = self;
        m.insert(name, value);
        m
    }

    /// Look up a metric by name.
    pub fn get(&self, name: &str) -> (r: Option<Scalar>)
        ensures
            r == (if self@.contains_key(name@) {
                Some(self@[name@])
            } else {
                None::<Scalar>
            }),
    {
        match self.values.get(name) {
            Some(v) => Some(*v),
            None => None,
        }
    }

    /// The metrics in deterministic (sorted) order.
    pub fn iter(&self) -> (r: Vec<(&String, &Scalar)>)
        ensures
            r@.len() == self.pairs().len(),
            forall|i: int|
                0 <= i < r@.len() ==> *(#[trigger] r@[i]).0 == self.pairs()[i].0 && *r@[i].1
                    == self.pairs()[i].1,
            crate::names::sorted_pairs(self.pairs()),
            self@ == crate::names::entries_map(self.pairs()),
    {
        self.values.iter()
    }

    /// Number of metrics.
    pub fn len(&self) -> (n: usize)
        ensures
            n == self@.len(),
    {
        self.values.len()
    }

    /// Whether there are no metrics.
    pub fn is_empty(&self) -> (r: bool)
        ensures
            r == (self@.dom() =~= Set::empty()),
    {
        self.values.is_empty()
    }
}

impl Clone for NamedMetrics {
    fn clone(&self) -> (m: Self)
        ensures
            m@ == self@,
            m.pairs() == self.pairs(),
    {
        let m = NamedMetrics { values: self.values.clone() };
        proof {
            assert(m.values.pairs() =~= self.values.pairs());
        }
        m
    }
}

impl Default for NamedMetrics {
    fn default() -> (m: Self)
        ensures
            m@ == Map::<Seq<char>, Scalar>::empty(),
    {
        NamedMetrics::new()
    }
}

} // verus!
