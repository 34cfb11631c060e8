//! Write path of a self-describing, length-prefixed binary wire format.
//!
//! A message stream carries two kinds of frames: a type-definition frame,
//! sent at most once per type per stream, and value frames that reference
//! the type by its numeric identifier. Values are assembled zero-copy in a
//! scatter buffer of owned byte chunks and handed to a sink by vectored
//! writes.

pub mod bufvec;
pub mod ctx;
pub mod error;
pub mod schema;
pub mod sink;
pub mod stream;
pub mod tuple;
pub mod types;
pub mod wire;

pub use bufvec::BufVec;
pub use ctx::SerializationCtx;
pub use error::EncodeError;
pub use error::IoFault;
pub use error::SchemaError;
pub use schema::SchemaEntry;
pub use schema::SchemaRegistry;
pub use sink::Sink;
pub use sink::VecSink;
pub use stream::Frame;
pub use stream::Stream;
pub use tuple::TupleBuilder;
pub use types::TypeDescriptor;
pub use types::TypeId;
