//! What the library reads and changes of an entity-component world.
//!
//! An entity is given by its handle's bits. Of a world's contents the library knows which
//! entities there are, which handles the world declares dead, and the four components that the
//! library itself attaches meaning to: [`NetId`], [`PlayerId`], [`ServerOwned`] and
//! [`ServerEntity`]. All other components of an entity are known as one whole.

use crate::client_server::PlayerId;
use crate::nid::NetId;
use crate::server::{ServerEntity, ServerOwned};
use vstd::prelude::*;

verus! {

/// Handles below this are not of the last generation that a slot of a world can have.
pub const LAST_GENERATION: u64 = 0xFFFF_FFFF_0000_0000;

/// No world holds more entities: their handles are told apart by a number of 32 bits.
pub const MAX_ENTITIES: u64 = 0x1_0000_0000;

/// An entity-component world of the crate `hecs`. Opaque here but for the names below.
#[verifier::external_type_specification]
#[verifier::external_body]
pub struct ExWorld(hecs::World);

/// The entities that queries over the world walk through: all but those only reserved.
pub uninterp spec fn entities(world: hecs::World) -> Set<u64>;

/// The handles that `World::contains` rejects.
pub uninterp spec fn dead_handles(world: hecs::World) -> Set<u64>;

/// The number in the [`NetId`] component of each entity that has one.
pub uninterp spec fn net_ids(world: hecs::World) -> Map<u64, u64>;

/// The number in the [`PlayerId`] component of each entity that has one.
pub uninterp spec fn player_ids(world: hecs::World) -> Map<u64, u64>;

/// The entities that have the [`ServerOwned`] component.
pub uninterp spec fn owned(world: hecs::World) -> Set<u64>;

/// The number in the [`ServerEntity`] component of each entity that has one.
pub uninterp spec fn server_ids(world: hecs::World) -> Map<u64, u64>;

/// The handles that are reserved: flushing the world makes entities of them.
pub uninterp spec fn reserved(world: hecs::World) -> Set<u64>;

/// The world's own counter of entities, plus the number of reserved handles. Clearing a world
/// leaves its counter as it was; otherwise this is how many entities there are once the world is
/// flushed.
pub uninterp spec fn entity_count(world: hecs::World) -> nat;

/// A number that stands for all components but those four, with their values, of each entity that
/// has any.
pub uninterp spec fn others(world: hecs::World) -> Map<u64, nat>;

/// The handles whose place in the world has gone on to a later generation.
pub uninterp spec fn spent(world: hecs::World) -> Set<u64>;

/// Whether the world's account of its handles is sound, so that it can be flushed: the count of
/// handles left for reuse is no more than the list of them, that list holds no handle that is in
/// use, and the counter of entities has room for the reserved ones. The first is not so after
/// `World::spawn_column_batch` took handles from the list, and then whatever flushes the world
/// panics.
pub uninterp spec fn flushable(world: hecs::World) -> bool;

/// No handle that is of an entity or reserved is dead, and every handle whose place has gone on is.
pub open spec fn coherent(w: hecs::World) -> bool {
    &&& population(w).disjoint(dead_handles(w))
    &&& spent(w).subset_of(dead_handles(w))
}

/// The entities and those to come: the handles that are reserved.
pub open spec fn population(w: hecs::World) -> Set<u64> {
    entities(w).union(reserved(w))
}

/// From `w0` to `w1` the reserved handles became entities. No other came, and none went. All were
/// counted in 32 bits.
pub open spec fn flushed(w0: hecs::World, w1: hecs::World) -> bool {
    &&& entity_count(w0) <= u32::MAX
    &&& entities(w1) == population(w0)
    &&& reserved(w1) == Set::<u64>::empty()
    &&& entity_count(w1) == entity_count(w0)
}

/// From `w0` to `w1` no entity came or went, but that some reserved handles may have become
/// entities.
pub open spec fn same_population(w0: hecs::World, w1: hecs::World) -> bool {
    &&& population(w1) == population(w0)
    &&& reserved(w1).subset_of(reserved(w0))
    &&& entity_count(w1) == entity_count(w0)
}

/// From `w0` to `w1` no entity went, no dead handle came to life, and no place went back to an
/// earlier generation.
pub open spec fn aged(w0: hecs::World, w1: hecs::World) -> bool {
    &&& entities(w0).subset_of(entities(w1))
    &&& dead_handles(w0).subset_of(dead_handles(w1))
    &&& spent(w0).subset_of(spent(w1))
    &&& coherent(w0) ==> coherent(w1)
}

/// From `w0` to `w1` the reserved handles became entities, and nothing else changed.
pub open spec fn keeps(w0: hecs::World, w1: hecs::World) -> bool {
    &&& aged(w0, w1)
    &&& flushed(w0, w1)
    &&& others(w1) == others(w0)
    &&& net_ids(w1) == net_ids(w0)
    &&& player_ids(w1) == player_ids(w0)
    &&& owned(w1) == owned(w0)
    &&& server_ids(w1) == server_ids(w0)
}

/// `w1` is `w0`, flushed, with one new entity that has the [`NetId`] component `nid` and no other.
/// Its handle was neither that of an entity nor reserved nor dead.
pub open spec fn spawned(w0: hecs::World, w1: hecs::World, entity: u64, nid: u64) -> bool {
    &&& !population(w0).contains(entity)
    &&& !net_ids(w0).contains_key(entity)
    &&& !player_ids(w0).contains_key(entity)
    &&& !others(w0).contains_key(entity)
    &&& !dead_handles(w0).contains(entity)
    &&& aged(w0, w1)
    &&& entities(w1) == population(w0).insert(entity)
    &&& reserved(w1) == Set::<u64>::empty()
    &&& entity_count(w1) == entity_count(w0) + 1
    &&& entity_count(w1) <= u32::MAX
    &&& !dead_handles(w1).contains(entity)
    &&& others(w1) == others(w0)
    &&& net_ids(w1) == net_ids(w0).insert(entity, nid)
    &&& player_ids(w1) == player_ids(w0)
    &&& owned(w1) == owned(w0)
    &&& server_ids(w1) == server_ids(w0)
}

/// `w1` is `w0`, flushed, without `entity`, whose handle is dead, and whose place has gone on to a
/// later generation.
pub open spec fn despawned(w0: hecs::World, w1: hecs::World, entity: u64) -> bool {
    &&& entities(w1) == population(w0).remove(entity)
    &&& reserved(w1) == Set::<u64>::empty()
    &&& entity_count(w1) + 1 == entity_count(w0)
    &&& entity_count(w0) <= u32::MAX
    &&& dead_handles(w1).contains(entity)
    &&& spent(w0).insert(entity).subset_of(spent(w1))
    &&& coherent(w0) ==> coherent(w1)
    &&& others(w1) == others(w0).remove(entity)
    &&& net_ids(w1) == net_ids(w0).remove(entity)
    &&& player_ids(w1) == player_ids(w0).remove(entity)
    &&& owned(w1) == owned(w0).remove(entity)
    &&& server_ids(w1) == server_ids(w0).remove(entity)
}

/// `w1` is `w0`, flushed, but for the [`ServerEntity`] component of `entity`, which is `nid`.
pub open spec fn adopted(w0: hecs::World, w1: hecs::World, entity: u64, nid: u64) -> bool {
    &&& aged(w0, w1)
    &&& flushed(w0, w1)
    &&& others(w1) == others(w0)
    &&& net_ids(w1) == net_ids(w0)
    &&& player_ids(w1) == player_ids(w0)
    &&& owned(w1) == owned(w0)
    &&& server_ids(w1) == server_ids(w0).insert(entity, nid)
}

/// `w1` is `w0` but for the [`PlayerId`] components, which are `players`.
pub open spec fn with_players(
    w0: hecs::World,
    w1: hecs::World,
    players: Map<u64, u64>,
) -> bool {
    &&& aged(w0, w1)
    &&& same_population(w0, w1)
    &&& others(w1) == others(w0)
    &&& net_ids(w1) == net_ids(w0)
    &&& player_ids(w1) == players
    &&& owned(w1) == owned(w0)
    &&& server_ids(w1) == server_ids(w0)
}

/// `entity` has the same components in `w0` and `w1`, but for the four.
pub open spec fn alike(w0: hecs::World, w1: hecs::World, entity: u64) -> bool {
    &&& others(w0).contains_key(entity) <==> others(w1).contains_key(entity)
    &&& others(w0).contains_key(entity) ==> others(w0)[entity] == others(w1)[entity]
}

/// What a world says when asked for an entity's [`NetId`].
#[derive(Clone, Copy, Debug, PartialEq, Eq, Structural)]
pub enum Lookup {
    Found(u64),
    MissingComponent,
    NoSuchEntity,
}

/// `w` has neither entities nor dead or reserved handles.
pub open spec fn vacant(w: hecs::World) -> bool {
    &&& entities(w) == Set::<u64>::empty()
    &&& reserved(w) == Set::<u64>::empty()
    &&& dead_handles(w) == Set::<u64>::empty()
    &&& spent(w) == Set::<u64>::empty()
    &&& net_ids(w) == Map::<u64, u64>::empty()
    &&& player_ids(w) == Map::<u64, u64>::empty()
    &&& owned(w) == Set::<u64>::empty()
    &&& server_ids(w) == Map::<u64, u64>::empty()
    &&& others(w) == Map::<u64, nat>::empty()
    &&& entity_count(w) == 0
}

/// Calls `hecs::World::new`. The contract claims that the world is vacant and can be flushed.
#[verifier::external_body]
fn new_world() -> (world: hecs::World)
    ensures
        vacant(world),
        flushable(world),
{
    hecs::World::new()
}

/// A world without entities, in which all that the library does can be done.
pub fn empty() -> (world: hecs::World)
    ensures
        vacant(world),
        flushable(world),
        coherent(world),
{
    new_world()
}

/// Calls `hecs::World::contains`. The contract claims the meaning of [`dead_handles`], and that a
/// handle whose place has gone on is dead.
#[verifier::external_body]
pub(crate) fn contains(world: &hecs::World, entity: u64) -> (alive: bool)
    ensures
        alive == !dead_handles(*world).contains(entity),
        spent(*world).contains(entity) ==> !alive,
{
    world.contains(hecs::Entity::from_bits(entity))
}

/// Calls `hecs::World::query_one_mut` for the [`NetId`] component of `entity`. The contract
/// claims that it finds the component exactly where [`net_ids`] has it, and then of an entity
/// that exists, fails with `NoSuchEntity` exactly on a dead handle, which is of no entity, and
/// leaves the world as it was.
#[verifier::external_body]
pub(crate) fn net_id_of(world: &mut hecs::World, entity: u64) -> (found: Lookup)
    ensures
        found is Found <==> net_ids(*old(world)).contains_key(entity),
        found is Found ==> found->Found_0 == net_ids(*old(world))[entity],
        found is Found ==> entities(*old(world)).contains(entity),
        found is NoSuchEntity <==> dead_handles(*old(world)).contains(entity),
        found is NoSuchEntity ==> !entities(*old(world)).contains(entity),
        *final(world) == *old(world),
{
    match world.query_one_mut::<&NetId>(hecs::Entity::from_bits(entity)) {
        Ok(nid) => Lookup::Found(nid.0),
        Err(hecs::QueryOneError::Unsatisfied) => Lookup::MissingComponent,
        Err(hecs::QueryOneError::NoSuchEntity) => Lookup::NoSuchEntity,
    }
}

/// Calls `hecs::World::query_mut` for every entity. The contract claims that the handles of all
/// entities come out, in no particular order, and that the world stays as it was.
#[verifier::external_body]
pub(crate) fn all_entities(world: &mut hecs::World) -> (handles: Vec<u64>)
    ensures
        handles@.to_set() == entities(*old(world)),
        *final(world) == *old(world),
{
    world.query_mut::<()>().into_iter().map(|(entity, ())| entity.to_bits()).collect()
}

/// Calls `hecs::World::flush`, which makes entities of reserved handles, and then
/// `hecs::World::len`. The contract claims that the count includes those entities, that no other
/// entity comes or goes, and that no component changes. Flushing panics where the world is not
/// [`flushable`], which `requires` leaves out, here and below.
#[verifier::external_body]
pub(crate) fn count_entities(world: &mut hecs::World) -> (count: u32)
    requires
        flushable(*old(world)),
    ensures
        flushable(*final(world)),
        count == entity_count(*final(world)),
        entity_count(*final(world)) == entity_count(*old(world)),
        reserved(*final(world)) == Set::<u64>::empty(),
        others(*final(world)) == others(*old(world)),
        keeps(*old(world), *final(world)),
{
    world.flush();
    world.len()
}

/// Calls `hecs::World::spawn` with a [`NetId`] component alone. It panics when every handle is
/// taken, which `requires` leaves out. The contract claims that the new entity has that
/// component, that its handle was that of no other entity and not dead, and that every other
/// entity stays as it was.
#[verifier::external_body]
pub(crate) fn spawn(world: &mut hecs::World, nid: u64) -> (entity: u64)
    requires
        flushable(*old(world)),
        entity_count(*old(world)) < u32::MAX,
    ensures
        flushable(*final(world)),
        spawned(*old(world), *final(world), entity, nid),
{
    world.spawn((NetId(nid),)).to_bits()
}

/// Calls `hecs::World::despawn` on an entity that exists. A handle of the last generation,
/// which has no successor, is left out. The contract claims that the entity and its components
/// go, that its handle dies, and that every other entity stays as it was.
#[verifier::external_body]
pub(crate) fn despawn(world: &mut hecs::World, entity: u64) -> (done: bool)
    requires
        flushable(*old(world)),
        entities(*old(world)).contains(entity),
        entity < LAST_GENERATION,
    ensures
        flushable(*final(world)),
        done,
        despawned(*old(world), *final(world), entity),
{
    world.despawn(hecs::Entity::from_bits(entity)).is_ok()
}

/// Calls `hecs::World::query_one_mut` for the [`PlayerId`] component of `entity`. The contract
/// claims that it finds the component exactly where [`player_ids`] has it, and leaves the world
/// as it was.
#[verifier::external_body]
pub(crate) fn player_id_of(world: &mut hecs::World, entity: u64) -> (player: Option<PlayerId>)
    ensures
        player is Some <==> player_ids(*old(world)).contains_key(entity),
        player is Some ==> player->Some_0 == PlayerId(player_ids(*old(world))[entity]),
        *final(world) == *old(world),
{
    world.query_one_mut::<&PlayerId>(hecs::Entity::from_bits(entity)).ok().copied()
}

/// Calls `hecs::World::insert_one` with a [`PlayerId`] component, on an entity that exists. The
/// contract claims that it succeeds, that the entity then has that component, and that no other
/// component changes.
#[verifier::external_body]
pub(crate) fn insert_player_id(world: &mut hecs::World, entity: u64, player: u64) -> (done: bool)
    requires
        flushable(*old(world)),
        entities(*old(world)).contains(entity),
    ensures
        flushable(*final(world)),
        done,
        flushed(*old(world), *final(world)),
        with_players(
            *old(world),
            *final(world),
            player_ids(*old(world)).insert(entity, player),
        ),
{
    world.insert_one(hecs::Entity::from_bits(entity), PlayerId(player)).is_ok()
}

/// Calls `hecs::World::query_one_mut` for the [`PlayerId`] component of an entity that has one,
/// and overwrites it. The contract claims that the entity then has the new component and that
/// no other component changes.
#[verifier::external_body]
pub(crate) fn set_player_id(world: &mut hecs::World, entity: u64, player: u64) -> (done: bool)
    requires
        player_ids(*old(world)).contains_key(entity),
    ensures
        flushable(*old(world)) ==> flushable(*final(world)),
        done,
        entities(*final(world)) == entities(*old(world)),
        reserved(*final(world)) == reserved(*old(world)),
        with_players(
            *old(world),
            *final(world),
            player_ids(*old(world)).insert(entity, player),
        ),
{
    match world.query_one_mut::<&mut PlayerId>(hecs::Entity::from_bits(entity)) {
        Ok(item) => {
            *item = PlayerId(player);
            true
        },
        Err(_) => false,
    }
}

/// Calls `hecs::World::remove_one` for the [`PlayerId`] component of an entity that has one. The
/// contract claims that the component goes and that no other component changes.
#[verifier::external_body]
pub(crate) fn remove_player_id(world: &mut hecs::World, entity: u64) -> (done: bool)
    requires
        flushable(*old(world)),
        player_ids(*old(world)).contains_key(entity),
    ensures
        flushable(*final(world)),
        done,
        flushed(*old(world), *final(world)),
        with_players(*old(world), *final(world), player_ids(*old(world)).remove(entity)),
{
    world.remove_one::<PlayerId>(hecs::Entity::from_bits(entity)).is_ok()
}

/// Calls `hecs::World::query_mut` for the entities with the [`ServerOwned`] component and without
/// the [`ServerEntity`] component. The contract claims that each comes out once, in no particular
/// order, that all of them exist, that there are no more of them than there are numbers of 32
/// bits, and that the world stays as it was.
#[verifier::external_body]
pub(crate) fn unadopted_entities(world: &mut hecs::World) -> (handles: Vec<u64>)
    ensures
        handles@.no_duplicates(),
        handles@.to_set() == owned(*old(world)).difference(server_ids(*old(world)).dom()),
        handles@.to_set().subset_of(entities(*old(world))),
        handles@.len() <= MAX_ENTITIES,
        *final(world) == *old(world),
{
    let query = world.query_mut::<()>().with::<ServerOwned>().without::<ServerEntity>();
    query.into_iter().map(|(entity, ())| entity.to_bits()).collect()
}

/// Calls `hecs::World::insert_one` with a [`ServerEntity`] component, on an entity that exists.
/// The contract claims that it succeeds, that the entity then has that component, and that no
/// other component changes.
#[verifier::external_body]
pub(crate) fn insert_server_id(world: &mut hecs::World, entity: u64, nid: u64) -> (done: bool)
    requires
        flushable(*old(world)),
        entities(*old(world)).contains(entity),
    ensures
        flushable(*final(world)),
        done,
        adopted(*old(world), *final(world), entity, nid),
{
    world.insert_one(hecs::Entity::from_bits(entity), ServerEntity(nid)).is_ok()
}

/// Calls `hecs::World::query_one_mut` for the [`ServerEntity`] component of `entity`. The
/// contract claims that it finds the component exactly where [`server_ids`] has it, not on a dead
/// handle, and leaves the world as it was.
#[verifier::external_body]
pub(crate) fn server_id_of(world: &mut hecs::World, entity: u64) -> (nid: Option<u64>)
    ensures
        nid is Some <==> server_ids(*old(world)).contains_key(entity),
        nid is Some ==> nid->Some_0 == server_ids(*old(world))[entity],
        nid is Some ==> !dead_handles(*old(world)).contains(entity),
        *final(world) == *old(world),
{
    world.query_one_mut::<&ServerEntity>(hecs::Entity::from_bits(entity)).ok().map(|item| item.0)
}

/// Calls `hecs::World::query_one_mut` for the [`ServerOwned`] component of `entity`. The contract
/// claims that it finds the component exactly where [`owned`] has it, and leaves the world as it
/// was.
#[verifier::external_body]
pub(crate) fn is_owned(world: &mut hecs::World, entity: u64) -> (found: bool)
    ensures
        found == owned(*old(world)).contains(entity),
        *final(world) == *old(world),
{
    world.query_one_mut::<&ServerOwned>(hecs::Entity::from_bits(entity)).is_ok()
}

/// Calls `hecs::World::query_mut` for the entities with both a [`PlayerId`] and a [`NetId`]
/// component; gives the handle and the two numbers of each. The contract claims that each
/// comes out once, in no particular order, and that the world stays as it was.
#[verifier::external_body]
pub(crate) fn player_entities(world: &mut hecs::World) -> (rows: Vec<(u64, u64, u64)>)
    ensures
        rows@.no_duplicates(),
        forall|entity: u64, player: u64, nid: u64| #[trigger]
            rows@.contains((entity, player, nid)) <==> {
                &&& player_ids(*old(world)).contains_pair(entity, player)
                &&& net_ids(*old(world)).contains_pair(entity, nid)
            },
        *final(world) == *old(world),
{
    let query = world.query_mut::<(&PlayerId, &NetId)>();
    query.into_iter().map(|(entity, (pid, nid))| (entity.to_bits(), pid.0, nid.0)).collect()
}

} // verus!
