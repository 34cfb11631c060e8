use vstd::prelude::*;

verus! {

/// Stable numeric identifier of a wire type, assigned once per distinct
/// type by the schema registry and reused for every later encode.
/// Identifiers are positive; the negated value tags a definition frame.
#[derive(Clone, Copy, Debug, PartialEq, Eq, Structural)]
pub struct TypeId(pub i64);

impl TypeId {
    /// Identifiers handed out by a registry are always positive.
    pub open spec fn valid(self) -> bool {
        self.0 >= 1
    }
}

/// Runtime classification of a value's type, used to look a type up in
/// the schema registry and to check element homogeneity in composites.
#[derive(Clone, Copy, Debug, PartialEq, Eq, Structural)]
pub struct TypeDescriptor(pub u64);

} // verus!
