use vstd::prelude::*;

verus! {

/// Failure reported by a sink. The code is the sink's own; this crate
/// passes it through unchanged.
#[derive(Clone, Copy, Debug, PartialEq, Eq, Structural)]
pub struct IoFault {
    pub code: u64,
}

/// The requested type has no encodable wire representation in the
/// registry consulted.
#[derive(Clone, Copy, Debug, PartialEq, Eq, Structural)]
pub enum SchemaError {
    Unencodable,
}

/// Failure of an encode or flush.
#[derive(Clone, Copy, Debug, PartialEq, Eq, Structural)]
pub enum EncodeError {
    /// An element of a declared-homogeneous composite had an
    /// incompatible type.
    TypeMismatch,
    /// The sink reported a write failure; it is surfaced verbatim.
    Io(IoFault),
}

} // verus!
