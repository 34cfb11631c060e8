use vstd::prelude::*;

use crate::bufvec::BufVec;
use crate::error::EncodeError;
use crate::error::SchemaError;
use crate::schema::SchemaRegistry;
use crate::sink::Sink;
use crate::stream::Stream;
use crate::types::TypeDescriptor;
use crate::types::TypeId;

verus! {

/// Per-serialization state: a handle to the schema registry and the
/// scatter buffer collecting the in-progress value's encoded bytes.
/// A context is created fresh per top-level encode, filled through
/// zero or more composite builders, consumed by one flush, then gone.
pub struct SerializationCtx<'r> {
    registry: &'r SchemaRegistry,
    buf: BufVec,
}

impl<'r> SerializationCtx<'r> {
    /// The registry this context consults.
    pub closed spec fn registry(&self) -> SchemaRegistry {
        *self.registry
    }

    /// The encoded bytes accumulated so far.
    pub closed spec fn content(&self) -> Seq<u8> {
        self.buf@
    }

    pub closed spec fn wf(&self) -> bool {
        self.buf.wf() && self.registry.wf()
    }

    /// Creates a context with an empty buffer.
    pub fn new(registry: &'r SchemaRegistry) -> (r: SerializationCtx<'r>)
        requires
            registry.wf(),
        ensures
            r.wf(),
            r.registry() == *registry,
            r.content() == Seq::<u8>::empty(),
    {
        SerializationCtx { registry, buf: BufVec::new() }
    }

    /// Appends one element's encoded bytes to the in-progress value.
    /// Nothing is dropped or reordered: the buffer grows by exactly
    /// these bytes, at the back.
    pub fn append_encoded(&mut self, bytes: Vec<u8>)
        requires
            old(self).wf(),
            old(self).content().len() + bytes@.len() <= usize::MAX,
        ensures
            final(self).wf(),
            final(self).registry() == old(self).registry(),
            final(self).content() == old(self).content() + bytes@,
    {
        self.buf.push(bytes);
    }

    /// Resolves a runtime type against the registry: `Ok` exactly when
    /// the descriptor is registered, `SchemaError` otherwise.
    pub fn type_id_for(&self, descriptor: TypeDescriptor) -> (r: Result<TypeId, SchemaError>)
        requires
            self.wf(),
        ensures
            r == match crate::schema::find_descriptor(self.registry()@, descriptor) {
                Some(tid) => Result::<TypeId, SchemaError>::Ok(tid),
                None => Result::<TypeId, SchemaError>::Err(SchemaError::Unencodable),
            },
            r matches Ok(tid) ==> self.registry().has_definition(tid) && tid.valid(),
    {
        self.registry.resolve(descriptor)
    }

    /// Whether the registry this context consults has a definition
    /// registered under the identifier.
    pub fn knows_id(&self, type_id: TypeId) -> (r: bool)
        ensures
            r == self.registry().has_definition(type_id),
    {
        self.registry.knows_id(type_id)
    }

    /// How many bytes the in-progress value holds so far.
    pub fn content_len(&self) -> (r: usize)
        requires
            self.wf(),
        ensures
            r == self.content().len(),
    {
        self.buf.remaining()
    }

    /// Consumes the context: hands the accumulated bytes, with the
    /// type's definition bytes from the registry, to the stream's
    /// flush.
    pub fn flush<S: Sink>(self, type_id: TypeId, stream: &mut Stream<S>) -> (r: Result<
        (),
        EncodeError,
    >)
        requires
            self.wf(),
            old(stream).wf(),
            type_id.valid(),
            self.registry().has_definition(type_id),
            self.registry().definition_of(type_id).len() + 18 <= usize::MAX,
            self.content().len() + 18 <= usize::MAX,
        ensures
            final(stream).wf(),
            match r {
                Ok(_) => {
                    &&& final(stream).out() == old(stream).out() + old(stream).planned_bytes(
                        type_id,
                        self.registry().definition_of(type_id),
                        self.content(),
                    )
                    &&& final(stream).frames() == old(stream).frames() + (if old(stream).is_sent(
                        type_id.0,
                    ) {
                        seq![
                            (crate::stream::Frame::Value {
                                type_id: type_id.0,
                                body: self.content(),
                            }),
                        ]
                    } else {
                        seq![
                            (crate::stream::Frame::Definition {
                                type_id: type_id.0,
                                body: self.registry().definition_of(type_id),
                            }),
                            (crate::stream::Frame::Value {
                                type_id: type_id.0,
                                body: self.content(),
                            }),
                        ]
                    })
                    &&& forall|t: i64|
                        final(stream).is_sent(t) <==> (old(stream).is_sent(t) || t == type_id.0)
                },
                Err(e) => e matches EncodeError::Io(_),
            },
    {
        let definition = self.registry.definition_bytes(type_id);
        stream.flush(type_id, definition, self.buf)
    }
}

} // verus!
