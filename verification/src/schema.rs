use vstd::prelude::*;

use crate::error::SchemaError;
use crate::types::TypeDescriptor;
use crate::types::TypeId;

verus! {

/// One registered wire type: the runtime descriptor it answers to, its
/// stable identifier, and the bytes of its wire definition.
pub struct SchemaEntry {
    pub descriptor: TypeDescriptor,
    pub type_id: TypeId,
    pub definition: Vec<u8>,
}

/// First identifier registered for a descriptor, if any.
pub open spec fn find_descriptor(reg: Seq<SchemaEntry>, d: TypeDescriptor) -> Option<TypeId>
    decreases reg.len(),
{
    if reg.len() == 0 {
        None
    } else if reg.first().descriptor == d {
        Some(reg.first().type_id)
    } else {
        find_descriptor(reg.drop_first(), d)
    }
}

/// First definition registered under an identifier, if any.
pub open spec fn find_definition(reg: Seq<SchemaEntry>, tid: TypeId) -> Option<Seq<u8>>
    decreases reg.len(),
{
    if reg.len() == 0 {
        None
    } else if reg.first().type_id == tid {
        Some(reg.first().definition@)
    } else {
        find_definition(reg.drop_first(), tid)
    }
}

/// Maps a value's runtime type to a stable `TypeId` and to the bytes
/// of that type's wire definition. Identifiers are positive and are
/// never reassigned for the registry's lifetime.
pub struct SchemaRegistry {
    entries: Vec<SchemaEntry>,
}

impl View for SchemaRegistry {
    type V = Seq<SchemaEntry>;

    closed spec fn view(&self) -> Seq<SchemaEntry> {
        self.entries@
    }
}

impl SchemaRegistry {
    /// Each descriptor and each identifier is registered at most once,
    /// and every identifier is positive.
    pub open spec fn wf(&self) -> bool {
        &&& forall|i: int, j: int|
            0 <= i < j < self@.len() ==> (#[trigger] self@[i]).descriptor != (
            #[trigger] self@[j]).descriptor && self@[i].type_id != self@[j].type_id
        &&& forall|i: int| 0 <= i < self@.len() ==> (#[trigger] self@[i]).type_id.valid()
    }

    /// Whether a definition is registered under this identifier.
    pub open spec fn has_definition(&self, tid: TypeId) -> bool {
        find_definition(self@, tid) is Some
    }

    /// The definition bytes registered under an identifier.
    pub open spec fn definition_of(&self, tid: TypeId) -> Seq<u8> {
        find_definition(self@, tid).unwrap()
    }

    /// Creates an empty registry.
    pub fn new() -> (r: SchemaRegistry)
        ensures
            r.wf(),
            r@ == Seq::<SchemaEntry>::empty(),
    {
        SchemaRegistry { entries: Vec::new() }
    }

    /// Registers a descriptor under a fresh positive identifier with
    /// its definition bytes. Returns whether the entry was added: a
    /// non-positive identifier, a descriptor already registered, or an
    /// identifier already taken leaves the registry unchanged.
    pub fn register(&mut self, descriptor: TypeDescriptor, type_id: TypeId, definition: Vec<u8>)
        -> (r: bool)
        requires
            old(self).wf(),
        ensures
            final(self).wf(),
            r <==> (type_id.0 >= 1 && find_descriptor(old(self)@, descriptor) is None
                && find_definition(old(self)@, type_id) is None),
            r ==> final(self)@ == old(self)@.push(
                SchemaEntry { descriptor, type_id, definition: definition },
            ) && final(self)@.last().definition@ == definition@,
            !r ==> final(self)@ == old(self)@,
    {
        if type_id.0 < 1 {
            return false;
        }
        let taken_descriptor = self.lookup_descriptor(descriptor).is_some();
        let taken_id = self.lookup_definition_index(type_id).is_some();
        if taken_descriptor || taken_id {
            return false;
        }
        proof {
            lemma_find_descriptor_index(self@, descriptor);
            lemma_find_definition_index(self@, type_id);
        }
        let entry = SchemaEntry { descriptor, type_id, definition };
        self.entries.push(entry);
        proof {
            let now = self@;
            let prev = old(self)@;
            assert forall|i: int, j: int| 0 <= i < j < now.len() implies (
            #[trigger] now[i]).descriptor != (#[trigger] now[j]).descriptor && now[i].type_id
                != now[j].type_id by {
                if j < prev.len() {
                } else {
                    assert(now[i] == prev[i]);
                }
            }
        }
        true
    }

    /// Resolves a runtime type to its identifier: `Ok` exactly when the
    /// descriptor is registered, `SchemaError` otherwise. A resolved
    /// identifier always has a registered definition.
    pub fn resolve(&self, d: TypeDescriptor) -> (r: Result<TypeId, SchemaError>)
        requires
            self.wf(),
        ensures
            r == match find_descriptor(self@, d) {
                Some(tid) => Result::<TypeId, SchemaError>::Ok(tid),
                None => Result::<TypeId, SchemaError>::Err(SchemaError::Unencodable),
            },
            r matches Ok(tid) ==> self.has_definition(tid) && tid.valid(),
    {
        let found = self.lookup_descriptor(d);
        proof {
            if find_descriptor(self@, d) is Some {
                lemma_resolved_has_definition(self@, d);
                lemma_find_descriptor_member(self@, d);
            }
        }
        match found {
            Some(tid) => Ok(tid),
            None => Err(SchemaError::Unencodable),
        }
    }

    /// Whether a definition is registered under this identifier.
    pub fn knows_id(&self, type_id: TypeId) -> (r: bool)
        ensures
            r == self.has_definition(type_id),
    {
        self.lookup_definition_index(type_id).is_some()
    }

    /// The definition bytes registered under an identifier, stable for
    /// the registry's lifetime.
    pub fn definition_bytes(&self, type_id: TypeId) -> (r: &Vec<u8>)
        requires
            self.has_definition(type_id),
        ensures
            r@ == self.definition_of(type_id),
    {
        let idx = match self.lookup_definition_index(type_id) {
            Some(idx) => idx,
            None => {
                proof {
                    assert(false);
                }
                unreached()
            },
        };
        &self.entries[idx].definition
    }

    fn lookup_descriptor(&self, d: TypeDescriptor) -> (r: Option<TypeId>)
        ensures
            r == find_descriptor(self@, d),
    {
        let mut i: usize = 0;
        proof {
            assert(self@.skip(0) =~= self@);
        }
        while i < self.entries.len()
            invariant
                i <= self@.len(),
                find_descriptor(self@, d) == find_descriptor(self@.skip(i as int), d),
            decreases self@.len() - i,
        {
            proof {
                assert(self@.skip(i as int).first() == self@[i as int]);
                assert(self@.skip(i as int).drop_first() =~= self@.skip(i as int + 1));
            }
            if self.entries[i].descriptor.0 == d.0 {
                proof {
                    assert(self@[i as int].descriptor == d);
                }
                return Some(self.entries[i].type_id);
            }
            i = i + 1;
        }
        proof {
            assert(self@.skip(self@.len() as int) =~= Seq::<SchemaEntry>::empty());
        }
        None
    }

    fn lookup_definition_index(&self, tid: TypeId) -> (r: Option<usize>)
        ensures
            match r {
                Some(idx) => idx < self@.len() && self@[idx as int].type_id == tid
                    && find_definition(self@, tid) == Some(self@[idx as int].definition@),
                None => find_definition(self@, tid) is None,
            },
    {
        let mut i: usize = 0;
        proof {
            assert(self@.skip(0) =~= self@);
        }
        while i < self.entries.len()
            invariant
                i <= self@.len(),
                find_definition(self@, tid) == find_definition(self@.skip(i as int), tid),
            decreases self@.len() - i,
        {
            proof {
                assert(self@.skip(i as int).first() == self@[i as int]);
                assert(self@.skip(i as int).drop_first() =~= self@.skip(i as int + 1));
            }
            if self.entries[i].type_id.0 == tid.0 {
                proof {
                    assert(self@[i as int].type_id == tid);
                }
                return Some(i);
            }
            i = i + 1;
        }
        proof {
            assert(self@.skip(self@.len() as int) =~= Seq::<SchemaEntry>::empty());
        }
        None
    }
}

/// An unfound descriptor is at no index.
proof fn lemma_find_descriptor_index(reg: Seq<SchemaEntry>, d: TypeDescriptor)
    requires
        find_descriptor(reg, d) is None,
    ensures
        forall|i: int| 0 <= i < reg.len() ==> (#[trigger] reg[i]).descriptor != d,
    decreases reg.len(),
{
    if reg.len() > 0 {
        lemma_find_descriptor_index(reg.drop_first(), d);
        assert forall|i: int| 0 <= i < reg.len() implies (#[trigger] reg[i]).descriptor != d by {
            if i > 0 {
                assert(reg.drop_first()[i - 1] == reg[i]);
            }
        }
    }
}

/// An unfound identifier is at no index.
proof fn lemma_find_definition_index(reg: Seq<SchemaEntry>, tid: TypeId)
    requires
        find_definition(reg, tid) is None,
    ensures
        forall|i: int| 0 <= i < reg.len() ==> (#[trigger] reg[i]).type_id != tid,
    decreases reg.len(),
{
    if reg.len() > 0 {
        lemma_find_definition_index(reg.drop_first(), tid);
        assert forall|i: int| 0 <= i < reg.len() implies (#[trigger] reg[i]).type_id != tid by {
            if i > 0 {
                assert(reg.drop_first()[i - 1] == reg[i]);
            }
        }
    }
}

/// A resolved identifier belongs to some entry.
proof fn lemma_find_descriptor_member(reg: Seq<SchemaEntry>, d: TypeDescriptor)
    requires
        find_descriptor(reg, d) is Some,
    ensures
        exists|i: int|
            0 <= i < reg.len() && (#[trigger] reg[i]).type_id == find_descriptor(reg, d).unwrap(),
    decreases reg.len(),
{
    if reg.len() > 0 {
        if reg.first().descriptor == d {
            assert(reg[0].type_id == find_descriptor(reg, d).unwrap());
        } else {
            lemma_find_descriptor_member(reg.drop_first(), d);
            let j = choose|j: int|
                0 <= j < reg.drop_first().len() && (#[trigger] reg.drop_first()[j]).type_id
                    == find_descriptor(reg.drop_first(), d).unwrap();
            assert(reg[j + 1].type_id == find_descriptor(reg, d).unwrap());
        }
    }
}

/// Every identifier a registry resolves to has a registered
/// definition.
proof fn lemma_resolved_has_definition(reg: Seq<SchemaEntry>, d: TypeDescriptor)
    requires
        find_descriptor(reg, d) is Some,
    ensures
        find_definition(reg, find_descriptor(reg, d).unwrap()) is Some,
    decreases reg.len(),
{
    if reg.len() > 0 && reg.first().descriptor != d {
        lemma_resolved_has_definition(reg.drop_first(), d);
    }
}

} // verus!
