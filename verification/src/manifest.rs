//! Registry of event and entity builders.
//!
//! Each registered builder is assigned the next sequential 16-bit id, and
//! its `TypeId` is remembered so that the id can be looked up from the
//! concrete type later. Builders construct events or entities from raw
//! bytes; since Verus has no trait objects, the registry is generic over
//! one event-builder type and one entity-builder type (a closed universe of
//! builders becomes an enum implementing the trait).

use core::any::TypeId;
use core::marker::PhantomData;
use vstd::prelude::*;

verus! {

/// Builds events of type `T` from raw bytes; implemented by the host for
/// each registrable event type.
pub trait EventBuilder<T>: Sized {
    /// Construct an event from its wire bytes.
    fn build(&self, in_bytes: &[u8]) -> T;

    /// The `TypeId` of the event type this builder produces.
    fn get_type_id(&self) -> TypeId;
}

/// Builds entities of type `U` from raw bytes; implemented by the host for
/// each registrable entity type.
pub trait EntityBuilder<U>: Sized {
    /// Construct an entity from its wire bytes.
    fn build(&self, in_bytes: &[u8]) -> U;

    /// The `TypeId` of the entity type this builder produces.
    fn get_type_id(&self) -> TypeId;
}

/// `core::any::TypeId`, the opaque identity of a Rust type.
#[verifier::external_type_specification]
#[verifier::external_body]
pub struct ExTypeId(TypeId);

/// Relies on `TypeId`'s derived `PartialEq`: two type ids compare equal
/// exactly when they are the same value.
pub assume_specification[ <TypeId as PartialEq>::eq ](a: &TypeId, b: &TypeId) -> (r: bool)
    ensures
        r == (*a == *b),
;

/// Keys of a type-id association list are pairwise distinct.
pub open spec fn type_keys_unique(s: Seq<(TypeId, u16)>) -> bool {
    forall|i: int, j: int| 0 <= i < j < s.len() ==> (#[trigger] s[i]).0 != (#[trigger] s[j]).0
}

/// The map that a type-id association list denotes.
pub open spec fn type_map_of(s: Seq<(TypeId, u16)>) -> Map<TypeId, u16> {
    Map::new(
        |t: TypeId| exists|i: int| 0 <= i < s.len() && (#[trigger] s[i]).0 == t,
        |t: TypeId| s[choose|i: int| 0 <= i < s.len() && (#[trigger] s[i]).0 == t].1,
    )
}

/// Registry mapping event and entity types to sequential 16-bit ids and to
/// the builders that construct them from bytes.
#[verifier::reject_recursive_types(T)]
#[verifier::reject_recursive_types(U)]
#[verifier::reject_recursive_types(BE)]
#[verifier::reject_recursive_types(BU)]
pub struct Manifest<T, U, BE: EventBuilder<T>, BU: EntityBuilder<U>> {
    event_gaia_id_count: u16,
    event_builder_list: Vec<BE>,
    event_type_list: Vec<(TypeId, u16)>,
    entity_gaia_id_count: u16,
    entity_builder_list: Vec<BU>,
    entity_type_list: Vec<(TypeId, u16)>,
    marker: PhantomData<(T, U)>,
}

impl<T, U, BE: EventBuilder<T>, BU: EntityBuilder<U>> Manifest<T, U, BE, BU> {
    /// Builders registered for events, in registration order: the builder
    /// with gaia id `i` is at index `i`.
    pub closed spec fn event_builders(self) -> Seq<BE> {
        self.event_builder_list@
    }

    /// The event type-id map: the gaia id registered for each event type.
    pub closed spec fn event_types(self) -> Map<TypeId, u16> {
        type_map_of(self.event_type_list@)
    }

    /// Builders registered for entities, in registration order.
    pub closed spec fn entity_builders(self) -> Seq<BU> {
        self.entity_builder_list@
    }

    /// The entity type-id map: the gaia id registered for each entity type.
    pub closed spec fn entity_types(self) -> Map<TypeId, u16> {
        type_map_of(self.entity_type_list@)
    }

    /// Well-formed: ids are assigned sequentially, so the counters equal
    /// the builder counts, type keys are unique, and every mapped id names
    /// a registered builder.
    pub closed spec fn wf(self) -> bool {
        &&& self.event_gaia_id_count == self.event_builder_list@.len()
        &&& self.entity_gaia_id_count == self.entity_builder_list@.len()
        &&& type_keys_unique(self.event_type_list@)
        &&& type_keys_unique(self.entity_type_list@)
        &&& forall|i: int|
            0 <= i < self.event_type_list@.len() ==> (#[trigger] self.event_type_list@[i]).1
                < self.event_builder_list@.len()
        &&& forall|i: int|
            0 <= i < self.entity_type_list@.len() ==> (#[trigger] self.entity_type_list@[i]).1
                < self.entity_builder_list@.len()
    }

    /// An empty registry.
    pub fn new() -> (r: Manifest<T, U, BE, BU>)
        ensures
            r.wf(),
            r.event_builders() == Seq::<BE>::empty(),
            r.event_types() == Map::<TypeId, u16>::empty(),
            r.entity_builders() == Seq::<BU>::empty(),
            r.entity_types() == Map::<TypeId, u16>::empty(),
    {
        let r = Manifest {
            event_gaia_id_count: 0,
            event_builder_list: Vec::new(),
            event_type_list: Vec::new(),
            entity_gaia_id_count: 0,
            entity_builder_list: Vec::new(),
            entity_type_list: Vec::new(),
            marker: PhantomData,
        };
        proof {
            assert(r.event_types() =~= Map::<TypeId, u16>::empty());
            assert(r.entity_types() =~= Map::<TypeId, u16>::empty());
        }
        r
    }

    /// Register an event builder under the next sequential gaia id; its
    /// event type is mapped to that id, replacing any earlier mapping of
    /// the same type.
    pub fn register_event(&mut self, event_builder: BE)
        requires
            old(self).wf(),
            old(self).event_builders().len() < 65535,
        ensures
            final (self).wf(),
            final (self).event_builders() == old(self).event_builders().push(event_builder),
            exists|t: TypeId|
                final (self).event_types() == #[trigger] old(self).event_types().insert(
                    t,
                    old(self).event_builders().len() as u16,
                ),
            final (self).entity_builders() == old(self).entity_builders(),
            final (self).entity_types() == old(self).entity_types(),
    {
        let new_gaia_id = self.event_gaia_id_count;
        let type_id = event_builder.get_type_id();
        let ghost s = self.event_type_list@;
        let n = self.event_type_list.len();
        let mut j: usize = 0;
        let mut found = false;
        while j < n && !found
            invariant
                j <= n,
                n == s.len(),
                s == self.event_type_list@,
                !found ==> forall|i: int| 0 <= i < j ==> (#[trigger] s[i]).0 != type_id,
                found ==> j < n && s[j as int].0 == type_id,
            decreases n - j + if found {
                0int
            } else {
                1int
            },
        {
            if self.event_type_list[j].0 == type_id {
                found = true;
            } else {
                j += 1;
            }
        }
        if found {
            self.event_type_list[j] = (type_id, new_gaia_id);
            proof {
                lemma_type_map_update(s, j as int, new_gaia_id);
            }
        } else {
            self.event_type_list.push((type_id, new_gaia_id));
            proof {
                lemma_type_map_push(s, type_id, new_gaia_id);
            }
        }
        self.event_builder_list.push(event_builder);
        self.event_gaia_id_count = self.event_gaia_id_count + 1;
        proof {
            assert(final (self).event_types() == old(self).event_types().insert(
                type_id,
                old(self).event_builders().len() as u16,
            ));
        }
    }

    /// The gaia id registered for the event type `type_id`, which must have
    /// been registered.
    #[verifier::loop_isolation(false)]
    pub fn get_event_gaia_id(&self, type_id: &TypeId) -> (r: u16)
        requires
            self.wf(),
            self.event_types().contains_key(*type_id),
        ensures
            r == self.event_types()[*type_id],
    {
        let n = self.event_type_list.len();
        let mut j: usize = 0;
        while j < n
            invariant
                j <= n,
                forall|i: int|
                    0 <= i < j ==> (#[trigger] self.event_type_list@[i]).0 != *type_id,
            decreases n - j,
        {
            if self.event_type_list[j].0 == *type_id {
                proof {
                    lemma_type_map_lookup(self.event_type_list@, j as int);
                }
                return self.event_type_list[j].1;
            }
            j += 1;
        }
        proof {
            assert(!self.event_types().contains_key(*type_id));
        }
        unreached()
    }

    /// Build an event from bytes with the builder registered under
    /// `gaia_id`; yields nothing exactly when no builder has that id.
    pub fn create_event(&self, gaia_id: u16, bytes: &[u8]) -> (r: Option<T>)
        requires
            self.wf(),
        ensures
            r is Some <==> (gaia_id as int) < self.event_builders().len(),
    {
        if (gaia_id as usize) < self.event_builder_list.len() {
            Some(self.event_builder_list[gaia_id as usize].build(bytes))
        } else {
            None
        }
    }

    /// Register an entity builder under the next sequential gaia id; its
    /// entity type is mapped to that id, replacing any earlier mapping of
    /// the same type.
    pub fn register_entity(&mut self, entity_builder: BU)
        requires
            old(self).wf(),
            old(self).entity_builders().len() < 65535,
        ensures
            final (self).wf(),
            final (self).entity_builders() == old(self).entity_builders().push(entity_builder),
            exists|t: TypeId|
                final (self).entity_types() == #[trigger] old(self).entity_types().insert(
                    t,
                    old(self).entity_builders().len() as u16,
                ),
            final (self).event_builders() == old(self).event_builders(),
            final (self).event_types() == old(self).event_types(),
    {
        let new_gaia_id = self.entity_gaia_id_count;
        let type_id = entity_builder.get_type_id();
        let ghost s = self.entity_type_list@;
        let n = self.entity_type_list.len();
        let mut j: usize = 0;
        let mut found = false;
        while j < n && !found
            invariant
                j <= n,
                n == s.len(),
                s == self.entity_type_list@,
                !found ==> forall|i: int| 0 <= i < j ==> (#[trigger] s[i]).0 != type_id,
                found ==> j < n && s[j as int].0 == type_id,
            decreases n - j + if found {
                0int
            } else {
                1int
            },
        {
            if self.entity_type_list[j].0 == type_id {
                found = true;
            } else {
                j += 1;
            }
        }
        if found {
            self.entity_type_list[j] = (type_id, new_gaia_id);
            proof {
                lemma_type_map_update(s, j as int, new_gaia_id);
            }
        } else {
            self.entity_type_list.push((type_id, new_gaia_id));
            proof {
                lemma_type_map_push(s, type_id, new_gaia_id);
            }
        }
        self.entity_builder_list.push(entity_builder);
        self.entity_gaia_id_count = self.entity_gaia_id_count + 1;
        proof {
            assert(final (self).entity_types() == old(self).entity_types().insert(
                type_id,
                old(self).entity_builders().len() as u16,
            ));
        }
    }

    /// The gaia id registered for the entity type `type_id`, which must
    /// have been registered.
    #[verifier::loop_isolation(false)]
    pub fn get_entity_gaia_id(&self, type_id: &TypeId) -> (r: u16)
        requires
            self.wf(),
            self.entity_types().contains_key(*type_id),
        ensures
            r == self.entity_types()[*type_id],
    {
        let n = self.entity_type_list.len();
        let mut j: usize = 0;
        while j < n
            invariant
                j <= n,
                forall|i: int|
                    0 <= i < j ==> (#[trigger] self.entity_type_list@[i]).0 != *type_id,
            decreases n - j,
        {
            if self.entity_type_list[j].0 == *type_id {
                proof {
                    lemma_type_map_lookup(self.entity_type_list@, j as int);
                }
                return self.entity_type_list[j].1;
            }
            j += 1;
        }
        proof {
            assert(!self.entity_types().contains_key(*type_id));
        }
        unreached()
    }

    /// Build an entity from bytes with the builder registered under
    /// `gaia_id`; yields nothing exactly when no builder has that id.
    pub fn create_entity(&self, gaia_id: u16, bytes: &[u8]) -> (r: Option<U>)
        requires
            self.wf(),
        ensures
            r is Some <==> (gaia_id as int) < self.entity_builders().len(),
    {
        if (gaia_id as usize) < self.entity_builder_list.len() {
            Some(self.entity_builder_list[gaia_id as usize].build(bytes))
        } else {
            None
        }
    }
}

/// The map's value at a listed key is the pair's id.
proof fn lemma_type_map_lookup(s: Seq<(TypeId, u16)>, j: int)
    requires
        type_keys_unique(s),
        0 <= j < s.len(),
    ensures
        type_map_of(s).contains_key(s[j].0),
        type_map_of(s)[s[j].0] == s[j].1,
{
    let t = s[j].0;
    assert(exists|i: int| 0 <= i < s.len() && (#[trigger] s[i]).0 == t);
    let i = choose|i: int| 0 <= i < s.len() && (#[trigger] s[i]).0 == t;
    assert(i == j);
}

/// Appending a pair with a fresh key extends the denoted map.
proof fn lemma_type_map_push(s: Seq<(TypeId, u16)>, t: TypeId, id: u16)
    requires
        type_keys_unique(s),
        forall|i: int| 0 <= i < s.len() ==> (#[trigger] s[i]).0 != t,
    ensures
        type_keys_unique(s.push((t, id))),
        type_map_of(s.push((t, id))) == type_map_of(s).insert(t, id),
{
    let s2 = s.push((t, id));
    let m1 = type_map_of(s2);
    let m2 = type_map_of(s).insert(t, id);
    assert forall|i: int, k: int| 0 <= i < k < s2.len() implies (#[trigger] s2[i]).0 != (
    #[trigger] s2[k]).0 by {
        if k < s.len() {
            assert(s2[i] == s[i] && s2[k] == s[k]);
        } else {
            assert(s2[i] == s[i] && s2[k] == (t, id));
        }
    }
    assert forall|q: TypeId| m1.contains_key(q) implies m2.contains_key(q) && m1[q] == m2[q] by {
        let iw = choose|i: int| 0 <= i < s2.len() && (#[trigger] s2[i]).0 == q;
        assert(0 <= iw < s2.len() && s2[iw].0 == q);
        if iw < s.len() {
            assert(s2[iw] == s[iw]);
            assert(q != t);
            let i0 = choose|i: int| 0 <= i < s.len() && (#[trigger] s[i]).0 == q;
            assert(0 <= i0 < s.len() && s[i0].0 == q);
            assert(i0 == iw);
            assert(m1[q] == s2[iw].1 && m2[q] == s[i0].1);
        } else {
            assert(s2[iw] == (t, id));
            assert(q == t && m1[q] == id);
        }
    }
    assert forall|q: TypeId| m2.contains_key(q) implies m1.contains_key(q) by {
        if q == t {
            assert(s2[s.len() as int].0 == t);
        } else {
            let i0 = choose|i: int| 0 <= i < s.len() && (#[trigger] s[i]).0 == q;
            assert(0 <= i0 < s.len() && s[i0].0 == q);
            assert(s2[i0] == s[i0]);
        }
    }
    assert(m1 =~= m2);
}

/// Replacing the pair at a key's index updates the denoted map there alone.
proof fn lemma_type_map_update(s: Seq<(TypeId, u16)>, j: int, id: u16)
    requires
        type_keys_unique(s),
        0 <= j < s.len(),
    ensures
        type_keys_unique(s.update(j, (s[j].0, id))),
        type_map_of(s.update(j, (s[j].0, id))) == type_map_of(s).insert(s[j].0, id),
{
    let t = s[j].0;
    let s2 = s.update(j, (t, id));
    let m1 = type_map_of(s2);
    let m2 = type_map_of(s).insert(t, id);
    assert forall|i: int, k: int| 0 <= i < k < s2.len() implies (#[trigger] s2[i]).0 != (
    #[trigger] s2[k]).0 by {
        assert(s2[i].0 == s[i].0 && s2[k].0 == s[k].0);
    }
    assert forall|q: TypeId| m1.contains_key(q) implies m2.contains_key(q) && m1[q] == m2[q] by {
        let iw = choose|i: int| 0 <= i < s2.len() && (#[trigger] s2[i]).0 == q;
        assert(0 <= iw < s2.len() && s2[iw].0 == q);
        if iw == j {
            assert(q == t && m1[q] == id);
        } else {
            assert(s2[iw] == s[iw]);
            assert(q != t);
            let i0 = choose|i: int| 0 <= i < s.len() && (#[trigger] s[i]).0 == q;
            assert(0 <= i0 < s.len() && s[i0].0 == q);
            assert(i0 == iw);
            assert(m1[q] == s2[iw].1 && m2[q] == s[i0].1);
        }
    }
    assert forall|q: TypeId| m2.contains_key(q) implies m1.contains_key(q) by {
        if q == t {
            assert(s2[j].0 == t);
        } else {
            let i0 = choose|i: int| 0 <= i < s.len() && (#[trigger] s[i]).0 == q;
            assert(0 <= i0 < s.len() && s[i0].0 == q);
            assert(i0 != j);
            assert(s2[i0] == s[i0]);
        }
    }
    assert(m1 =~= m2);
}

} // verus!
