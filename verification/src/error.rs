//! Errors shared across the engine.

use vstd::prelude::*;
use crate::param::ParamValue;
use crate::scalar::Scalar;
use crate::text::{join, signed_text};
#[allow(unused_imports)]
use crate::text;

verus! {

/// Why a distribution, or a search space holding it, was rejected.
#[derive(Debug)]
#[allow(inconsistent_fields)]
pub enum Reason {
    /// A float bound is infinite or not a number.
    BoundsNotFinite,
    /// The float bounds are the wrong way round.
    FloatBoundsCrossed {
        /// The lower bound as given.
        low: Scalar,
        /// The upper bound as given.
        high: Scalar,
    },
    /// The integer bounds are the wrong way round.
    IntBoundsCrossed {
        /// The lower bound as given.
        low: i64,
        /// The upper bound as given.
        high: i64,
    },
    /// A log scale needs a strictly positive lower bound.
    LogNeedsPositiveLow,
    /// A float step is zero or negative.
    StepNotPositive,
    /// An integer step is below one.
    StepBelowOne,
    /// A range cannot be both stepped and log-scaled.
    SteppedAndLog,
    /// The name was already taken by an earlier parameter.
    DuplicateName,
    /// A condition names a parent that is not declared before it.
    ParentNotDeclared {
        /// The parent that the condition names.
        parent: String,
    },
    /// A condition waits for a value that its parent never takes.
    GateValueNotInParent {
        /// The unreachable value.
        value: ParamValue,
        /// The parent that the condition names.
        parent: String,
    },
    /// An operation palette is empty.
    NeedsOperation,
    /// A macro space has no candidate width.
    NeedsWidth,
}

/// Errors surfaced by the optimization engine. Each variant says what went wrong and, where
/// possible, which parameter or trial was involved.
#[derive(Debug)]
pub enum Error {
    /// A parameter was requested with a distribution incompatible with the one already
    /// registered under the same name.
    DistributionMismatch {
        /// The parameter name.
        name: String,
        /// The distribution kind previously registered.
        existing: String,
        /// The distribution kind requested now.
        requested: String,
    },
    /// A parameter value was requested but is absent from a `ParamSet`.
    MissingParam(String),
    /// A parameter value had a different type than the caller expected.
    ParamTypeMismatch {
        /// The parameter name.
        name: String,
        /// The type actually stored.
        actual: String,
        /// The type the caller requested.
        expected: String,
    },
    /// A distribution was constructed with invalid bounds.
    InvalidDistribution {
        /// The parameter name.
        name: String,
        /// Why the distribution is invalid.
        reason: Reason,
    },
    /// A referenced study, trial, or entity does not exist in storage.
    NotFound {
        /// The kind of entity (e.g. "study", "trial").
        kind: &'static str,
        /// Its identifier, rendered as a string.
        id: String,
    },
    /// A categorical distribution was declared with no choices.
    EmptyCategorical(String),
    /// An objective closure or task adapter reported a failure.
    Objective(String),
    /// A storage backend failed.
    Storage(String),
    /// Serialization or deserialization of a persisted record failed.
    Serde(String),
}

impl Reason {
    /// The reason in words. Two of them quote a float or a value as it would be written in
    /// code, and are left to whoever can render those.
    pub open spec fn words(self) -> Option<Seq<char>> {
        match self {
            Reason::BoundsNotFinite => Some("bounds must be finite"@),
            Reason::FloatBoundsCrossed { .. } => None,
            Reason::IntBoundsCrossed { low, high } => Some(
                "low ("@ + text::signed(low as int) + ") > high ("@ + text::signed(high as int)
                    + ")"@,
            ),
            Reason::LogNeedsPositiveLow => Some("log-scale requires low > 0"@),
            Reason::StepNotPositive => Some("step must be positive"@),
            Reason::StepBelowOne => Some("step must be >= 1"@),
            Reason::SteppedAndLog => Some("stepped and log are mutually exclusive"@),
            Reason::DuplicateName => Some("duplicate parameter name in search space"@),
            Reason::ParentNotDeclared { parent } => Some(
                "condition references parent `"@ + parent@ + "` which is not declared before it"@,
            ),
            Reason::GateValueNotInParent { .. } => None,
            Reason::NeedsOperation => Some("an op palette needs at least one operation"@),
            Reason::NeedsWidth => Some("at least one positive channel width is required"@),
        }
    }

    /// The reason in words, unless it quotes a float or a value.
    pub fn message(&self) -> (r: Option<String>)
        ensures
            match r {
                Some(s) => self.words() == Some(s@),
                None => self.words() is None,
            },
    {
        match self {
            Reason::BoundsNotFinite => Some("bounds must be finite".to_owned()),
            Reason::FloatBoundsCrossed { .. } => None,
            Reason::IntBoundsCrossed { low, high } => {
                let mut s = join("low (", signed_text(*low).as_str());
                s = join(s.as_str(), ") > high (");
                s = join(s.as_str(), signed_text(*high).as_str());
                Some(join(s.as_str(), ")"))
            },
            Reason::LogNeedsPositiveLow => Some("log-scale requires low > 0".to_owned()),
            Reason::StepNotPositive => Some("step must be positive".to_owned()),
            Reason::StepBelowOne => Some("step must be >= 1".to_owned()),
            Reason::SteppedAndLog => Some("stepped and log are mutually exclusive".to_owned()),
            Reason::DuplicateName => Some("duplicate parameter name in search space".to_owned()),
            Reason::ParentNotDeclared { parent } => {
                let s = join("condition references parent `", parent.as_str());
                Some(join(s.as_str(), "` which is not declared before it"))
            },
            Reason::GateValueNotInParent { .. } => None,
            Reason::NeedsOperation => Some(
                "an op palette needs at least one operation".to_owned(),
            ),
            Reason::NeedsWidth => Some(
                "at least one positive channel width is required".to_owned(),
            ),
        }
    }
}

impl Error {
    /// The error in words, where `reason` stands for the words of a rejected distribution.
    pub open spec fn words(self, reason: Seq<char>) -> Seq<char> {
        match self {
            Error::DistributionMismatch { name, existing, requested } => {
                "parameter `"@ + name@ + "` was already defined with a different distribution ("@
                    + existing@ + " vs "@ + requested@ + ")"@
            },
            Error::MissingParam(name) => {
                "parameter `"@ + name@ + "` is missing from the parameter set"@
            },
            Error::ParamTypeMismatch { name, actual, expected } => {
                "parameter `"@ + name@ + "` is a "@ + actual@ + " but was requested as "@
                    + expected@
            },
            Error::InvalidDistribution { name, .. } => {
                "invalid distribution for `"@ + name@ + "`: "@ + reason
            },
            Error::NotFound { kind, id } => kind@ + " `"@ + id@ + "` not found in storage"@,
            Error::EmptyCategorical(name) => {
                "categorical parameter `"@ + name@ + "` has no choices"@
            },
            Error::Objective(why) => "objective evaluation failed: "@ + why@,
            Error::Storage(why) => "storage error: "@ + why@,
            Error::Serde(why) => "serialization error: "@ + why@,
        }
    }

    /// The error in words, where `reason` stands for the words of a rejected distribution.
    pub fn message(&self, reason: &str) -> (s: String)
        ensures
            s@ == self.words(reason@),
    {
        match self {
            Error::DistributionMismatch { name, existing, requested } => {
                let mut s = join("parameter `", name.as_str());
                s = join(s.as_str(), "` was already defined with a different distribution (");
                s = join(s.as_str(), existing.as_str());
                s = join(s.as_str(), " vs ");
                s = join(s.as_str(), requested.as_str());
                join(s.as_str(), ")")
            },
            Error::MissingParam(name) => {
                let s = join("parameter `", name.as_str());
                join(s.as_str(), "` is missing from the parameter set")
            },
            Error::ParamTypeMismatch { name, actual, expected } => {
                let mut s = join("parameter `", name.as_str());
                s = join(s.as_str(), "` is a ");
                s = join(s.as_str(), actual.as_str());
                s = join(s.as_str(), " but was requested as ");
                join(s.as_str(), expected.as_str())
            },
            Error::InvalidDistribution { name, .. } => {
                let mut s = join("invalid distribution for `", name.as_str());
                s = join(s.as_str(), "`: ");
                join(s.as_str(), reason)
            },
            Error::NotFound { kind, id } => {
                let mut s = join(kind, " `");
                s = join(s.as_str(), id.as_str());
                join(s.as_str(), "` not found in storage")
            },
            Error::EmptyCategorical(name) => {
                let s = join("categorical parameter `", name.as_str());
                join(s.as_str(), "` has no choices")
            },
            Error::Objective(why) => join("objective evaluation failed: ", why.as_str()),
            Error::Storage(why) => join("storage error: ", why.as_str()),
            Error::Serde(why) => join("serialization error: ", why.as_str()),
        }
    }
}

} // verus!
