//! Names that are persisted in study metadata.

use vstd::prelude::*;

verus! {

/// Something with a short, stable name: a sampler or a pruner.
pub trait Named {
    /// The name persisted in study metadata.
    spec fn label(&self) -> Seq<char>;

    /// A short, stable name persisted in study metadata.
    fn name(&self) -> (r: &'static str)
        ensures
            r@ == self.label(),
    ;
}

} // verus!
