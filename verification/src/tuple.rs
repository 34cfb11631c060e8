use vstd::prelude::*;

use crate::ctx::SerializationCtx;
use crate::error::EncodeError;
use crate::types::TypeDescriptor;
use crate::types::TypeId;

verus! {

/// The encoded bytes of each element in a row, in order.
pub open spec fn encodings_of(elems: Seq<(TypeDescriptor, Vec<u8>)>) -> Seq<Seq<u8>> {
    elems.map_values(|e: (TypeDescriptor, Vec<u8>)| e.1@)
}

/// How many leading elements of the row carry the declared type.
pub open spec fn matching_prefix(elems: Seq<(TypeDescriptor, Vec<u8>)>, d: TypeDescriptor) -> int
    decreases elems.len(),
{
    if elems.len() == 0 {
        0
    } else if elems.first().0 != d {
        0
    } else {
        1 + matching_prefix(elems.drop_first(), d)
    }
}

proof fn lemma_matching_prefix_at(elems: Seq<(TypeDescriptor, Vec<u8>)>, d: TypeDescriptor, i: int)
    requires
        0 <= i <= elems.len(),
        forall|j: int| 0 <= j < i ==> (#[trigger] elems[j]).0 == d,
        i < elems.len() ==> elems[i].0 != d,
    ensures
        matching_prefix(elems, d) == i,
    decreases elems.len(),
{
    if elems.len() == 0 {
    } else if i == 0 {
    } else {
        assert(elems[0].0 == d);
        assert forall|j: int| 0 <= j < i - 1 implies (#[trigger] elems.drop_first()[j]).0 == d by {
            assert(elems.drop_first()[j] == elems[j + 1]);
        }
        if i - 1 < elems.drop_first().len() {
            assert(elems.drop_first()[i - 1] == elems[i]);
        }
        lemma_matching_prefix_at(elems.drop_first(), d, i - 1);
    }
}

/// Drives a serialization context through an ordered row of element
/// encodings for one homogeneous composite value. The builder owns
/// the context for its lifetime and returns it on completion; the
/// caller is responsible for flushing. Ownership makes the state
/// machine linear: a finished builder is gone, so no element can
/// follow `end` and `end` cannot run twice.
pub struct TupleBuilder<'r> {
    ctx: SerializationCtx<'r>,
    type_id: TypeId,
    element: TypeDescriptor,
}

impl<'r> TupleBuilder<'r> {
    /// The composite's resolved type identifier.
    pub closed spec fn target_type_id(&self) -> TypeId {
        self.type_id
    }

    /// The declared element type every element must match.
    pub closed spec fn declared_element(&self) -> TypeDescriptor {
        self.element
    }

    /// The bytes accumulated in the owned context.
    pub closed spec fn content(&self) -> Seq<u8> {
        self.ctx.content()
    }

    /// The registry the owned context consults.
    pub closed spec fn registry(&self) -> crate::schema::SchemaRegistry {
        self.ctx.registry()
    }

    pub closed spec fn wf(&self) -> bool {
        self.ctx.wf()
    }

    /// Starts a composite whose elements are all declared to share one
    /// type, with the composite's identifier already resolved.
    pub fn homogeneous(ctx: SerializationCtx<'r>, type_id: TypeId, element: TypeDescriptor) -> (r:
        TupleBuilder<'r>)
        requires
            ctx.wf(),
        ensures
            r.wf(),
            r.target_type_id() == type_id,
            r.declared_element() == element,
            r.content() == ctx.content(),
            r.registry() == ctx.registry(),
    {
        TupleBuilder { ctx, type_id, element }
    }

    /// Appends one element's encoded bytes, checking its runtime type
    /// against the declared element type. A matching element extends
    /// the value by exactly its bytes, in call order; a mismatch is
    /// `TypeMismatch` and changes nothing.
    pub fn serialize_element(&mut self, element: TypeDescriptor, encoded: Vec<u8>) -> (r: Result<
        (),
        EncodeError,
    >)
        requires
            old(self).wf(),
            old(self).content().len() + encoded@.len() <= usize::MAX,
        ensures
            final(self).wf(),
            final(self).target_type_id() == old(self).target_type_id(),
            final(self).declared_element() == old(self).declared_element(),
            final(self).registry() == old(self).registry(),
            element == old(self).declared_element() ==> r == Result::<(), EncodeError>::Ok(())
                && final(self).content() == old(self).content() + encoded@,
            element != old(self).declared_element() ==> r == Result::<(), EncodeError>::Err(
                EncodeError::TypeMismatch,
            ) && final(self).content() == old(self).content(),
    {
        if element.0 != self.element.0 {
            return Err(EncodeError::TypeMismatch);
        }
        self.ctx.append_encoded(encoded);
        Ok(())
    }

    /// Feeds a whole row of elements in order: exactly the longest
    /// leading run of elements carrying the declared type is appended,
    /// their bytes concatenated in call order, and the call succeeds
    /// exactly when that run is the whole row; the first stranger
    /// stops it with `TypeMismatch`.
    #[verifier::loop_isolation(false)]
    pub fn serialize_elements(&mut self, elements: Vec<(TypeDescriptor, Vec<u8>)>) -> (r: Result<
        (),
        EncodeError,
    >)
        requires
            old(self).wf(),
            old(self).content().len() + encodings_of(elements@).flatten().len() <= usize::MAX,
        ensures
            final(self).wf(),
            final(self).target_type_id() == old(self).target_type_id(),
            final(self).declared_element() == old(self).declared_element(),
            final(self).registry() == old(self).registry(),
            final(self).content() == old(self).content() + encodings_of(
                elements@.take(matching_prefix(elements@, old(self).declared_element())),
            ).flatten(),
            r == if matching_prefix(elements@, old(self).declared_element()) == elements@.len() {
                Result::<(), EncodeError>::Ok(())
            } else {
                Result::<(), EncodeError>::Err(EncodeError::TypeMismatch)
            },
    {
        let ghost all = elements@;
        let ghost d = old(self).declared_element();
        let mut elements = elements;
        let total = elements.len();
        proof {
            assert(all.len() == total);
        }
        let mut i: usize = 0;
        proof {
            assert(encodings_of(all).take(0).flatten() =~= Seq::<u8>::empty());
            assert(old(self).content() + encodings_of(all).take(0).flatten() =~= old(
                self,
            ).content());
        }
        while elements.len() > 0
            invariant
                self.wf(),
                self.target_type_id() == old(self).target_type_id(),
                self.declared_element() == d,
                self.registry() == old(self).registry(),
                i + elements@.len() == all.len(),
                elements@ == all.skip(i as int),
                forall|j: int| 0 <= j < i ==> (#[trigger] all[j]).0 == d,
                self.content() == old(self).content() + encodings_of(all).take(
                    i as int,
                ).flatten(),
            decreases elements@.len(),
        {
            let e = elements.remove(0);
            proof {
                assert(e == all[i as int]);
                assert(elements@ =~= all.skip(i as int + 1));
                assert(encodings_of(all).take(i as int + 1) =~= encodings_of(all).take(
                    i as int,
                ).push(all[i as int].1@));
                Seq::lemma_flatten_push(encodings_of(all).take(i as int), all[i as int].1@);
                crate::bufvec::lemma_flatten_split(encodings_of(all), i as int + 1);
            }
            match self.serialize_element(e.0, e.1) {
                Ok(_) => {},
                Err(err) => {
                    proof {
                        lemma_matching_prefix_at(all, d, i as int);
                        assert(encodings_of(all.take(i as int)) =~= encodings_of(all).take(
                            i as int,
                        ));
                    }
                    return Err(err);
                },
            }
            i = i + 1;
            proof {
                assert(self.content() =~= old(self).content() + encodings_of(all).take(
                    i as int,
                ).flatten());
            }
        }
        proof {
            lemma_matching_prefix_at(all, d, all.len() as int);
            assert(all.take(all.len() as int) =~= all);
            assert(encodings_of(all.take(all.len() as int)) =~= encodings_of(all).take(
                all.len() as int,
            ));
            assert(encodings_of(all).take(all.len() as int) =~= encodings_of(all));
        }
        Ok(())
    }

    /// How many bytes the in-progress value holds so far.
    pub fn content_len(&self) -> (r: usize)
        requires
            self.wf(),
        ensures
            r == self.content().len(),
    {
        self.ctx.content_len()
    }

    /// The identifier the composite will be flushed under.
    pub fn type_id(&self) -> (r: TypeId)
        ensures
            r == self.target_type_id(),
    {
        self.type_id
    }

    /// Ends the composite, handing back the resolved identifier and
    /// the context holding the accumulated bytes, ready to flush.
    pub fn end(self) -> (r: (TypeId, SerializationCtx<'r>))
        requires
            self.wf(),
        ensures
            r.0 == self.target_type_id(),
            r.1.wf(),
            r.1.content() == self.content(),
            r.1.registry() == self.registry(),
    {
        (self.type_id, self.ctx)
    }
}

} // verus!
