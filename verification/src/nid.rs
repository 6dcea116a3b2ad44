//! Numbers that are replicated instead of entity handles, and their mapping to entities.

use crate::client_server::PlayerId;
use crate::keys;
use crate::world::{self, Lookup};
use std::collections::HashMap;
use vstd::prelude::*;

pub mod laws;

verus! {

broadcast use vstd::std_specs::hash::group_hash_axioms;

/// Value that is replicated instead of an entity handle. Zero stands for no entity.
#[derive(Clone, Copy, Debug, PartialEq, Eq, Hash, Structural)]
pub struct NetId(pub u64);

/// Zero was unpacked where a [`NetId`] was due.
#[derive(Clone, Copy, Debug, PartialEq, Eq, Structural)]
pub struct ZeroNetIdError;

impl alkahest::SchemaUnpack<'_> for NetId {
    type Unpacked = Result<NetId, ZeroNetIdError>;
}

impl alkahest::Schema for NetId {
    type Packed = u64;

    fn align() -> (align: usize)
        ensures
            align == 8,
    {
        8
    }

    /// The id whose number is `packed`; an error for zero.
    fn unpack<'a>(packed: u64, _input: &'a [u8]) -> (nid: Result<NetId, ZeroNetIdError>)
        ensures
            nid == (if packed == 0 {
                Err(ZeroNetIdError)
            } else {
                Ok(NetId(packed))
            }),
    {
        if packed == 0 {
            Err(ZeroNetIdError)
        } else {
            Ok(NetId(packed))
        }
    }
}

impl alkahest::Pack<NetId> for NetId {
    /// The id's number; uses none of `_output`.
    fn pack(self, _offset: usize, _output: &mut [u8]) -> (packed: (u64, usize))
        ensures
            packed == (self.0, 0usize),
            final(_output)@ == old(_output)@,
    {
        (self.0, 0)
    }
}

/// Source of numbers that never repeat.
pub struct IdGen {
    next: u64,
}

impl IdGen {
    /// The number that comes next.
    pub closed spec fn next(self) -> u64 {
        self.next
    }

    /// Zero is never handed out.
    pub open spec fn wf(self) -> bool {
        self.next() > 0
    }

    /// Starts at one.
    pub fn new() -> (id_gen: Self)
        ensures
            id_gen.next() == 1,
            id_gen.wf(),
    {
        IdGen { next: 1 }
    }

    /// Whether `count` more numbers can be had.
    pub fn has(&self, count: u64) -> (enough: bool)
        ensures
            enough == (self.next() + count <= u64::MAX),
    {
        count <= u64::MAX - self.next
    }

    /// Hands out the next number as a [`NetId`].
    pub fn gen_nid(&mut self) -> (nid: NetId)
        requires
            old(self).wf(),
            old(self).next() < u64::MAX,
        ensures
            nid == NetId(old(self).next()),
            final(self).next() == old(self).next() + 1,
            final(self).wf(),
    {
        NetId(self.gen())
    }

    /// Hands out the next number as a [`PlayerId`].
    pub fn gen_pid(&mut self) -> (pid: PlayerId)
        requires
            old(self).wf(),
            old(self).next() < u64::MAX,
        ensures
            pid == PlayerId(old(self).next()),
            final(self).next() == old(self).next() + 1,
            final(self).wf(),
    {
        PlayerId(self.gen())
    }

    /// Hands out the next number.
    pub fn gen(&mut self) -> (id: u64)
        requires
            old(self).wf(),
            old(self).next() < u64::MAX,
        ensures
            id == old(self).next(),
            id != 0,
            final(self).next() == old(self).next() + 1,
            final(self).wf(),
    {
        let id: u64 = self.next;
        self.next = self.next + 1;
        id
    }
}

/// Why no entity could be had for a [`NetId`].
#[derive(Clone, Copy, Debug, PartialEq, Eq, Structural)]
pub enum MapperError {
    /// The entity's [`NetId`] component has another value.
    NetIdModified,
    /// The entity has no [`NetId`] component any more.
    NetIdRemoved,
    /// The world has no room for another entity.
    WorldFull,
}

/// From `NetId`s to the entities that stand for them.
pub struct EntityMapper {
    entity_by_id: HashMap<u64, u64>,
}

impl View for EntityMapper {
    type V = Map<u64, u64>;

    closed spec fn view(&self) -> Map<u64, u64> {
        self.entity_by_id@
    }
}

/// What `get_or_spawn` finds of the entity that `mapper` holds for `nid`, if it holds one:
/// whether the entity can be used as it is, has to be made anew, or is not what it should be.
#[derive(Clone, Copy, Debug, PartialEq, Eq, Structural)]
pub enum Resolution {
    Use,
    Spawn,
    Refuse(MapperError),
}

/// What to do about an entity on whose [`NetId`] component the world said `found`, where `nid`
/// is due.
pub open spec fn resolution(found: Lookup, nid: u64) -> Resolution {
    match found {
        Lookup::Found(id) => if id == nid {
            Resolution::Use
        } else {
            Resolution::Refuse(MapperError::NetIdModified)
        },
        Lookup::MissingComponent => Resolution::Refuse(MapperError::NetIdRemoved),
        Lookup::NoSuchEntity => Resolution::Spawn,
    }
}

/// What the world `w` says of the [`NetId`] component of `entity`.
pub open spec fn lookup(w: hecs::World, entity: u64) -> Lookup {
    if world::dead_handles(w).contains(entity) {
        Lookup::NoSuchEntity
    } else if world::net_ids(w).contains_key(entity) {
        Lookup::Found(world::net_ids(w)[entity])
    } else {
        Lookup::MissingComponent
    }
}

/// What to do about the entity of `nid` under the mapping `m` in the world `w`.
pub open spec fn resolve(m: Map<u64, u64>, w: hecs::World, nid: u64) -> Resolution {
    if m.contains_key(nid) {
        resolution(lookup(w, m[nid]), nid)
    } else {
        Resolution::Spawn
    }
}

/// In going from the mapping `m0` and the world `w0` to `m1` and `w1`, `entity` was had for `nid`:
/// found, or spawned where there was none or where it had died.
pub open spec fn obtained(
    m0: Map<u64, u64>,
    w0: hecs::World,
    m1: Map<u64, u64>,
    w1: hecs::World,
    nid: u64,
    entity: Result<u64, MapperError>,
) -> bool {
    match resolve(m0, w0, nid) {
        Resolution::Use => entity == Ok::<u64, MapperError>(m0[nid]) && m1 == m0 && w1 == w0,
        Resolution::Refuse(err) => entity == Err::<u64, MapperError>(err) && m1 == m0 && w1 == w0,
        Resolution::Spawn => match entity {
            Ok(e) => {
                &&& world::entity_count(w0) < u32::MAX
                &&& world::spawned(w0, w1, e, nid)
                &&& m1 == m0.insert(nid, e)
            },
            Err(err) => {
                &&& err == MapperError::WorldFull
                &&& world::entity_count(w0) == u32::MAX
                &&& world::keeps(w0, w1)
                &&& m1 == m0
            },
        },
    }
}

/// Every entity of the mapping `m` that is not dead in `w` has the [`NetId`] that it stands for.
pub open spec fn sound(m: Map<u64, u64>, w: hecs::World) -> bool {
    forall|nid: u64| #[trigger]
        m.contains_key(nid) && !world::dead_handles(w).contains(m[nid]) ==> world::net_ids(
            w,
        ).contains_pair(m[nid], nid)
}

/// No two ids of the mapping `m` have the same entity.
pub open spec fn one_to_one(m: Map<u64, u64>) -> bool {
    forall|a: u64, b: u64| #[trigger]
        m.contains_key(a) && #[trigger] m.contains_key(b) && a != b ==> m[a] != m[b]
}

/// A sound mapping never refuses an id, and to have an entity for one keeps the mapping sound and
/// one to one: an entity is made only with a handle that no id had before.
pub proof fn mapping_stays_sound(
    m0: Map<u64, u64>,
    w0: hecs::World,
    m1: Map<u64, u64>,
    w1: hecs::World,
    nid: u64,
    entity: Result<u64, MapperError>,
)
    requires
        sound(m0, w0),
        obtained(m0, w0, m1, w1, nid, entity),
    ensures
        sound(m1, w1),
        one_to_one(m0) ==> one_to_one(m1),
        entity matches Err(err) ==> err == MapperError::WorldFull,
        entity matches Ok(e) ==> {
            &&& !world::dead_handles(w1).contains(e)
            &&& world::net_ids(w1).contains_pair(e, nid)
            &&& m1.contains_pair(nid, e)
        },
{
    assert forall|a: u64| #[trigger]
        m1.contains_key(a) && !world::dead_handles(w1).contains(m1[a]) implies world::net_ids(
        w1,
    ).contains_pair(m1[a], a) by {
        assert(a == nid || m0.contains_key(a));
    }
}

/// An entity that died is replaced by another, whose handle is a new one. Whoever asks again gets
/// the same entity, and nothing changes.
pub proof fn dead_are_replaced(
    m0: Map<u64, u64>,
    w0: hecs::World,
    m1: Map<u64, u64>,
    w1: hecs::World,
    m2: Map<u64, u64>,
    w2: hecs::World,
    nid: u64,
    first: u64,
    again: Result<u64, MapperError>,
)
    requires
        obtained(m0, w0, m1, w1, nid, Ok(first)),
        obtained(m1, w1, m2, w2, nid, again),
    ensures
        again == Ok::<u64, MapperError>(first),
        m2 == m1,
        w2 == w1,
        m0.contains_key(nid) && world::dead_handles(w0).contains(m0[nid]) ==> {
            &&& first != m0[nid]
            &&& world::spawned(w0, w1, first, nid)
        },
{
}

/// Decides what to do about an entity on whose [`NetId`] component the world said `found`.
pub fn decide(found: Lookup, nid: u64) -> (todo: Resolution)
    ensures
        todo == resolution(found, nid),
{
    match found {
        Lookup::Found(id) => if id == nid {
            Resolution::Use
        } else {
            Resolution::Refuse(MapperError::NetIdModified)
        },
        Lookup::MissingComponent => Resolution::Refuse(MapperError::NetIdRemoved),
        Lookup::NoSuchEntity => Resolution::Spawn,
    }
}

impl EntityMapper {
    /// A mapping of no ids.
    pub fn new() -> (mapper: Self)
        ensures
            mapper@ == Map::<u64, u64>::empty(),
    {
        EntityMapper { entity_by_id: HashMap::new() }
    }

    /// The entity of `nid`, dead or alive.
    pub fn get(&self, nid: NetId) -> (entity: Option<u64>)
        ensures
            entity == (if self@.contains_key(nid.0) {
                Some(self@[nid.0])
            } else {
                None
            }),
    {
        match self.entity_by_id.get(&nid.0) {
            Some(entity) => Some(*entity),
            None => None,
        }
    }

    /// The entity of `nid`, spawned where there is none or where it has died.
    pub fn get_or_spawn(&mut self, world: &mut hecs::World, nid: NetId) -> (entity: Result<
        u64,
        MapperError,
    >)
        requires
            world::flushable(*old(world)),
        ensures
            world::flushable(*final(world)),
            obtained(old(self)@, *old(world), final(self)@, *final(world), nid.0, entity),
            entity matches Ok(e) ==> !world::dead_handles(*final(world)).contains(e),
            sound(old(self)@, *old(world)) ==> sound(final(self)@, *final(world)),
            entity matches Ok(e) ==> world::entities(*final(world)).contains(e),
            entity matches Ok(e) ==> final(self)@.contains_pair(nid.0, e),
    {
        let ghost start = (self@, *world);
        if let Some(entity) = self.get(nid) {
            let found = world::net_id_of(world, entity);
            match decide(found, nid.0) {
                Resolution::Use => {
                    return Ok(entity);
                },
                Resolution::Refuse(err) => {
                    return Err(err);
                },
                Resolution::Spawn => {},
            }
        }
        if world::count_entities(world) == u32::MAX {
            return Err(MapperError::WorldFull);
        }
        assert(world::population(*world) =~= world::population(start.1));
        let entity = world::spawn(world, nid.0);
        self.entity_by_id.insert(nid.0, entity);
        assert(obtained(start.0, start.1, self@, *world, nid.0, Ok(entity)));
        proof {
            if sound(start.0, start.1) {
                mapping_stays_sound(start.0, start.1, self@, *world, nid.0, Ok(entity));
            }
        }
        Ok(entity)
    }

    /// Every id of the mapping has been handed out by `id_gen`.
    pub open spec fn issued_by(self, id_gen: IdGen) -> bool {
        forall|nid: u64| #[trigger] self@.contains_key(nid) ==> 0 < nid < id_gen.next()
    }

    /// Maps a new id to `entity`.
    pub fn new_nid(&mut self, id_gen: &mut IdGen, entity: u64) -> (nid: NetId)
        requires
            old(id_gen).wf(),
            old(id_gen).next() < u64::MAX,
            old(self).issued_by(*old(id_gen)),
        ensures
            nid == NetId(old(id_gen).next()),
            !old(self)@.contains_key(nid.0),
            final(self)@ == old(self)@.insert(nid.0, entity),
            final(id_gen).next() == old(id_gen).next() + 1,
            final(id_gen).wf(),
            final(self).issued_by(*final(id_gen)),
    {
        let nid = id_gen.gen_nid();
        self.entity_by_id.insert(nid.0, entity);
        assert forall|id: u64| #[trigger] self@.contains_key(id) implies 0 < id < id_gen.next() by {
            assert(id == nid.0 || old(self)@.contains_key(id));
        }
        nid
    }

    /// The ids whose entity `w` declares dead.
    pub open spec fn removed(self, w: hecs::World) -> Set<u64> {
        self@.dom().filter(|nid: u64| world::dead_handles(w).contains(self@[nid]))
    }

    /// The ids whose entity has died, each once, in no particular order.
    pub fn iter_removed(&self, world: &hecs::World) -> (removed: Vec<NetId>)
        ensures
            removed@.no_duplicates(),
            forall|nid: NetId| #[trigger]
                removed@.contains(nid) <==> self.removed(*world).contains(nid.0),
    {
        let ids = keys::keys(&self.entity_by_id);
        let mut removed: Vec<NetId> = Vec::new();
        for i in 0..ids.len()
            invariant
                ids@.no_duplicates(),
                ids@.to_set() == self@.dom(),
                removed@.no_duplicates(),
                forall|nid: NetId| #[trigger]
                    removed@.contains(nid) <==> {
                        &&& self.removed(*world).contains(nid.0)
                        &&& ids@.take(i as int).contains(nid.0)
                    },
        {
            let nid = ids[i];
            assert(ids@.to_set().contains(nid));
            let ghost before = removed@;
            let ghost now = ids@.take(i + 1);
            assert(now =~= ids@.take(i as int).push(nid));
            assert(!ids@.take(i as int).contains(nid));
            if let Some(entity) = self.get(NetId(nid)) {
                if !world::contains(world, entity) {
                    assert(!removed@.contains(NetId(nid)));
                    removed.push(NetId(nid));
                }
            }
            assert forall|id: NetId| #[trigger]
                removed@.contains(id) implies self.removed(*world).contains(id.0) && now.contains(
                id.0,
            ) by {
                if before.contains(id) {
                    keys::push_contains(ids@.take(i as int), nid, id.0);
                } else {
                    assert(id == NetId(nid));
                    keys::push_contains(ids@.take(i as int), nid, id.0);
                }
            }
            assert forall|id: NetId|
                self.removed(*world).contains(id.0) && now.contains(id.0) implies #[trigger]
            removed@.contains(id) by {
                keys::push_contains(ids@.take(i as int), nid, id.0);
                keys::push_contains(before, NetId(nid), id);
                if id.0 != nid {
                    assert(before.contains(id));
                }
            }
        }
        assert(ids@.take(ids@.len() as int) =~= ids@);
        assert forall|nid: NetId| #[trigger]
            removed@.contains(nid) <==> self.removed(*world).contains(nid.0) by {
            if self.removed(*world).contains(nid.0) {
                assert(ids@.to_set().contains(nid.0));
            }
        }
        removed
    }

    /// Forgets the ids whose entity has died.
    pub fn clear_removed(&mut self, world: &hecs::World)
        ensures
            final(self)@ == old(self)@.remove_keys(old(self).removed(*world)),
    {
        let removed = self.iter_removed(world);
        let ghost start = self@;
        let ghost gone = self.removed(*world);
        for i in 0..removed.len()
            invariant
                forall|nid: NetId| #[trigger] removed@.contains(nid) <==> gone.contains(nid.0),
                self@ == start.remove_keys(
                    Set::new(|id: u64| removed@.take(i as int).contains(NetId(id))),
                ),
        {
            let nid = removed[i];
            let ghost now = removed@.take(i + 1);
            assert(now =~= removed@.take(i as int).push(nid));
            self.entity_by_id.remove(&nid.0);
            assert forall|id: u64| now.contains(NetId(id)) <==> removed@.take(i as int).contains(
                NetId(id),
            ) || id == nid.0 by {
                keys::push_contains(removed@.take(i as int), nid, NetId(id));
            }
            assert(self@ =~= start.remove_keys(Set::new(|id: u64| now.contains(NetId(id)))));
        }
        assert(removed@.take(removed@.len() as int) =~= removed@);
        assert(Set::new(|id: u64| removed@.contains(NetId(id))) =~= gone) by {
            assert forall|id: u64| removed@.contains(NetId(id)) <==> gone.contains(id) by {
                assert(removed@.contains(NetId(id)) <==> gone.contains(NetId(id).0));
            }
        }
    }
}

} // verus!
