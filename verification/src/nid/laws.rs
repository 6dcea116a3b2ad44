//! What the operations on ids mean: the laws of their source and of their mapping, stated of what
//! the functions are given and give.

use crate::client_server::PlayerId;
use crate::nid::{self, EntityMapper, IdGen, MapperError, NetId, Resolution};
use crate::world::{self, Lookup};
use vstd::prelude::*;

verus! {

/// The source of ids begins at one. Each id is the next number, whatever it is for, and so never
/// one that was handed out before.
pub proof fn ids_count_up(
    start: IdGen,
    id_gen: &mut IdGen,
    nids: &mut IdGen,
    pids: &mut IdGen,
    id: u64,
    nid: NetId,
    pid: PlayerId,
)
    requires
        call_ensures(IdGen::new, (), start),
        call_ensures(IdGen::gen, (id_gen,), id),
        call_ensures(IdGen::gen_nid, (nids,), nid),
        call_ensures(IdGen::gen_pid, (pids,), pid),
    ensures
        start.next() == 1,
        id == old(id_gen).next(),
        final(id_gen).next() == id + 1,
        nid.0 == old(nids).next(),
        final(nids).next() == nid.0 + 1,
        pid.0 == old(pids).next(),
        final(pids).next() == pid.0 + 1,
{
}

/// There are enough ids exactly where the last of them is still a number.
pub proof fn ids_are_enough(id_gen: IdGen, count: u64, enough: bool)
    requires
        call_ensures(IdGen::has, (&id_gen, count), enough),
    ensures
        enough <==> id_gen.next() + count <= 0xFFFF_FFFF_FFFF_FFFF,
{
}

/// The entity that an id is mapped to is found, and none for any other id.
pub proof fn mapped_entities_are_found(
    empty: EntityMapper,
    mapper: EntityMapper,
    nid: NetId,
    entity: Option<u64>,
)
    requires
        call_ensures(EntityMapper::new, (), empty),
        call_ensures(EntityMapper::get, (&mapper, nid), entity),
    ensures
        forall|id: u64| !#[trigger] empty@.contains_key(id),
        entity is Some <==> mapper@.contains_key(nid.0),
        entity matches Some(entity) ==> mapper@[nid.0] == entity,
{
}

/// A new id is the next of its source, is mapped to its entity, and leaves all others mapped as
/// they were.
pub proof fn new_ids_are_mapped(
    mapper: &mut EntityMapper,
    id_gen: &mut IdGen,
    entity: u64,
    nid: NetId,
)
    requires
        call_ensures(EntityMapper::new_nid, (mapper, id_gen, entity), nid),
    ensures
        nid.0 == old(id_gen).next(),
        final(id_gen).next() == old(id_gen).next() + 1,
        final(mapper)@.contains_key(nid.0),
        final(mapper)@[nid.0] == entity,
        forall|other: u64|
            other != nid.0 ==> (#[trigger] final(mapper)@.contains_key(other)
                <==> old(mapper)@.contains_key(other)),
        forall|other: u64|
            other != nid.0 && #[trigger] old(mapper)@.contains_key(other)
                ==> final(mapper)@[other] == old(mapper)@[other],
{
}

/// The entity of an id is the one that it is mapped to, as long as that lives and has the id: then
/// nothing changes. A living entity that has another id, or none, is refused, and nothing changes
/// either. Where the id is not mapped, or its entity has died, one new entity comes, with the id as
/// its only component, and the id is mapped to it; but for a full world, in which nothing comes.
pub proof fn ids_have_one_entity(
    mapper: &mut EntityMapper,
    world: &mut hecs::World,
    nid: NetId,
    result: Result<u64, MapperError>,
)
    requires
        call_ensures(EntityMapper::get_or_spawn, (mapper, world, nid), result),
    ensures
        ({
            let m0 = old(mapper)@;
            let m1 = final(mapper)@;
            let w0 = *old(world);
            let w1 = *final(world);
            let lives = m0.contains_key(nid.0) && !world::dead_handles(w0).contains(m0[nid.0]);
            let own = world::net_ids(w0).contains_key(m0[nid.0]);
            &&& lives ==> m1 == m0 && w1 == w0
            &&& lives && own && world::net_ids(w0)[m0[nid.0]] == nid.0 ==> result == Ok::<
                u64,
                MapperError,
            >(m0[nid.0])
            &&& lives && own && world::net_ids(w0)[m0[nid.0]] != nid.0 ==> result == Err::<
                u64,
                MapperError,
            >(MapperError::NetIdModified)
            &&& lives && !own ==> result == Err::<u64, MapperError>(MapperError::NetIdRemoved)
            &&& !lives && world::entity_count(w0) == 0xFFFF_FFFFu32 ==> result == Err::<
                u64,
                MapperError,
            >(MapperError::WorldFull) && m1 == m0 && world::entities(w1) == world::population(w0)
            &&& !lives && world::entity_count(w0) < 0xFFFF_FFFFu32 ==> {
                &&& result is Ok
                &&& m1.contains_key(nid.0)
                &&& m1[nid.0] == result->Ok_0
                &&& !world::population(w0).contains(result->Ok_0)
                &&& !world::dead_handles(w0).contains(result->Ok_0)
                &&& forall|e: u64| #[trigger]
                    world::entities(w1).contains(e) <==> world::population(w0).contains(e) || e
                        == result->Ok_0
                &&& world::entity_count(w1) == world::entity_count(w0) + 1
                &&& world::net_ids(w1).contains_pair(result->Ok_0, nid.0)
                &&& forall|e: u64|
                    e != result->Ok_0 ==> (#[trigger] world::net_ids(w1).contains_key(e)
                        <==> world::net_ids(w0).contains_key(e))
                &&& forall|e: u64|
                    e != result->Ok_0 && #[trigger] world::net_ids(w0).contains_key(e)
                        ==> world::net_ids(w1)[e] == world::net_ids(w0)[e]
                &&& !world::player_ids(w1).contains_key(result->Ok_0)
                &&& !world::others(w1).contains_key(result->Ok_0)
            }
            &&& world::player_ids(w1) == world::player_ids(w0)
            &&& world::owned(w1) == world::owned(w0)
            &&& world::server_ids(w1) == world::server_ids(w0)
            &&& world::others(w1) == world::others(w0)
            &&& forall|other: u64|
                other != nid.0 ==> (#[trigger] m1.contains_key(other) <==> m0.contains_key(other))
            &&& forall|other: u64|
                other != nid.0 && #[trigger] m0.contains_key(other) ==> m1[other] == m0[other]
        }),
{
}

/// Exactly the ids whose entity has died are told, each once, and forgotten; the others stay mapped
/// as they were.
pub proof fn ids_of_the_dead_go(
    before: EntityMapper,
    world: hecs::World,
    removed: Vec<NetId>,
    mapper: &mut EntityMapper,
)
    requires
        call_ensures(EntityMapper::iter_removed, (&before, &world), removed),
        call_ensures(EntityMapper::clear_removed, (mapper, &world), ()),
    ensures
        forall|i: int, j: int|
            0 <= i < j < removed@.len() ==> (#[trigger] removed@[i]).0 != (#[trigger] removed@[j]).0,
        forall|k: int|
            0 <= k < removed@.len() ==> before@.contains_key((#[trigger] removed@[k]).0)
                && world::dead_handles(world).contains(before@[removed@[k].0]),
        forall|nid: u64| #[trigger]
            before@.contains_key(nid) && world::dead_handles(world).contains(before@[nid])
                ==> exists|k: int|
                0 <= k < removed@.len() && (#[trigger] removed@[k]).0 == nid,
        forall|nid: u64| #[trigger]
            final(mapper)@.contains_key(nid) <==> old(mapper)@.contains_key(nid)
                && !world::dead_handles(world).contains(old(mapper)@[nid]),
        forall|nid: u64| #[trigger]
            final(mapper)@.contains_key(nid) ==> final(mapper)@[nid] == old(mapper)@[nid],
{
    assert forall|k: int| 0 <= k < removed@.len() implies before@.contains_key(
        (#[trigger] removed@[k]).0,
    ) && world::dead_handles(world).contains(before@[removed@[k].0]) by {
        assert(removed@.contains(removed@[k]));
    }
    assert forall|nid: u64| #[trigger]
        before@.contains_key(nid) && world::dead_handles(world).contains(before@[nid]) implies exists|
        k: int,
    | 0 <= k < removed@.len() && (#[trigger] removed@[k]).0 == nid by {
        assert(before.removed(world).contains(NetId(nid).0));
        assert(removed@.contains(NetId(nid)));
        let k = choose|k: int| 0 <= k < removed@.len() && removed@[k] == NetId(nid);
        assert(removed@[k].0 == nid);
    }
    assert forall|i: int, j: int| 0 <= i < j < removed@.len() implies (#[trigger] removed@[i]).0
        != (#[trigger] removed@[j]).0 by {
        assert(removed@[i] != removed@[j]);
    }
}

/// What the world says of an entity's id decides: the id that is due is used, another or none is
/// refused, and an entity that is no more is made anew.
pub proof fn what_is_found_decides(found: Lookup, nid: u64, todo: Resolution)
    requires
        call_ensures(nid::decide, (found, nid), todo),
    ensures
        todo is Use <==> found == Lookup::Found(nid),
        todo is Spawn <==> found is NoSuchEntity,
        found is MissingComponent ==> todo == Resolution::Refuse(MapperError::NetIdRemoved),
        found is Found && found->Found_0 != nid ==> todo == Resolution::Refuse(
            MapperError::NetIdModified,
        ),
{
}

} // verus!
