//! What a client does with an update of the world.

use crate::client::{BadMessage, Descriptor, TrackReplicate};
use crate::client;
use crate::codec;
use crate::mask;
use crate::nid::{self, EntityMapper, MapperError, NetId};
use crate::schema::WorldUnpacked;
use crate::server;
use crate::server::replicas;
use crate::world::{self, Lookup};
use vstd::prelude::*;

verus! {

/// A row of descriptors: `()`, or a row and one more descriptor.
///
/// What is received of an entity has one slot for each descriptor of a row, in their order. The
/// last of a client's row is always [`PlayerIdDescriptor`](client::PlayerIdDescriptor).
pub trait Replicator {
    /// How many descriptors there are.
    spec fn count() -> nat;

    /// How many bytes the states take at the front of `bytes`, where `mask` says what changed.
    spec fn read(mask: u32, bytes: Seq<u8>) -> Result<nat, BadMessage>;

    /// `w1` is `w0` after each slot was applied to `entity`, in order, as far as the states can be
    /// read.
    spec fn applied(
        w0: hecs::World,
        w1: hecs::World,
        entity: u64,
        mask: u32,
        bytes: Seq<u8>,
    ) -> bool;

    /// There is one of `tracks` for each descriptor, and each new state among them can be read by
    /// its descriptor, whatever bytes follow.
    spec fn accepts(tracks: Seq<server::TrackReplicate<Seq<u8>>>) -> bool;

    /// `w1` is `w0` after each descriptor did with `entity` what `tracks` tell, in order.
    spec fn followed(
        w0: hecs::World,
        w1: hecs::World,
        entity: u64,
        tracks: Seq<server::TrackReplicate<Seq<u8>>>,
    ) -> bool;

    /// Where `mask` and `bytes` were made of `tracks`, applying them is doing what `tracks` tell,
    /// and no more bytes are read than were written.
    proof fn applied_is_followed(
        w0: hecs::World,
        w1: hecs::World,
        entity: u64,
        mask: u32,
        tracks: Seq<server::TrackReplicate<Seq<u8>>>,
        rest: Seq<u8>,
    )
        requires
            Self::accepts(tracks),
            forall|i: int|
                0 <= i < tracks.len() ==> mask::track_at(mask, i as nat) == Ok::<_, BadMessage>(
                    (#[trigger] tracks[i]).kind(),
                ),
        ensures
            tracks.len() == Self::count(),
            Self::read(mask, replicas::states(tracks) + rest) == Ok::<nat, BadMessage>(
                replicas::states(tracks).len(),
            ),
            Self::applied(w0, w1, entity, mask, replicas::states(tracks) + rest) ==> Self::followed(
                w0,
                w1,
                entity,
                tracks,
            ),
    ;

    /// How many descriptors there are.
    fn slots() -> (slots: usize)
        requires
            Self::count() <= mask::MASK_SLOTS,
        ensures
            slots == Self::count(),
    ;

    /// Whether a mask has room for the descriptors and `others` more.
    fn fits(others: usize) -> (fits: bool)
        ensures
            fits == (Self::count() + others <= mask::MASK_SLOTS),
    ;

    /// Applies what `mask` says to `entity`, with new state read at `pos` of `input`. Gives the
    /// position behind it.
    fn apply(
        mask: u32,
        entity: u64,
        world: &mut hecs::World,
        input: &[u8],
        pos: usize,
    ) -> (result: Result<usize, BadMessage>)
        requires
            Self::count() <= mask::MASK_SLOTS,
            world::flushable(*old(world)),
            world::entities(*old(world)).contains(entity),
            pos <= input@.len(),
        ensures
            client::ends_at(result, pos, Self::read(mask, input@.skip(pos as int)), input@.len()),
            Self::applied(*old(world), *final(world), entity, mask, input@.skip(pos as int)),
            world::entities(*final(world)).contains(entity),
            world::flushable(*final(world)),
    ;
}

impl Replicator for () {
    open spec fn count() -> nat {
        0
    }

    open spec fn read(mask: u32, bytes: Seq<u8>) -> Result<nat, BadMessage> {
        Ok(0)
    }

    open spec fn applied(
        w0: hecs::World,
        w1: hecs::World,
        entity: u64,
        mask: u32,
        bytes: Seq<u8>,
    ) -> bool {
        w1 == w0
    }

    open spec fn accepts(tracks: Seq<server::TrackReplicate<Seq<u8>>>) -> bool {
        tracks.len() == 0
    }

    open spec fn followed(
        w0: hecs::World,
        w1: hecs::World,
        entity: u64,
        tracks: Seq<server::TrackReplicate<Seq<u8>>>,
    ) -> bool {
        w1 == w0
    }

    proof fn applied_is_followed(
        w0: hecs::World,
        w1: hecs::World,
        entity: u64,
        mask: u32,
        tracks: Seq<server::TrackReplicate<Seq<u8>>>,
        rest: Seq<u8>,
    ) {
    }

    fn slots() -> (slots: usize) {
        0
    }

    fn fits(others: usize) -> (fits: bool) {
        others <= mask::MASK_SLOTS
    }

    fn apply(
        mask: u32,
        entity: u64,
        world: &mut hecs::World,
        input: &[u8],
        pos: usize,
    ) -> (result: Result<usize, BadMessage>) {
        Ok(pos)
    }
}

impl<R: Replicator, T: Descriptor> Replicator for (R, T) {
    open spec fn count() -> nat {
        R::count() + 1
    }

    open spec fn read(mask: u32, bytes: Seq<u8>) -> Result<nat, BadMessage> {
        match R::read(mask, bytes) {
            Err(err) => Err(err),
            Ok(n) => match mask::track_at(mask, R::count()) {
                Err(err) => Err(err),
                Ok(track) => match client::slot_read::<T>(track, bytes.skip(n as int)) {
                    Err(err) => Err(err),
                    Ok(k) => Ok(n + k),
                },
            },
        }
    }

    open spec fn applied(
        w0: hecs::World,
        w1: hecs::World,
        entity: u64,
        mask: u32,
        bytes: Seq<u8>,
    ) -> bool {
        match R::read(mask, bytes) {
            Err(_) => R::applied(w0, w1, entity, mask, bytes),
            Ok(n) => exists|between: hecs::World| #[trigger]
                R::applied(w0, between, entity, mask, bytes) && match mask::track_at(
                    mask,
                    R::count(),
                ) {
                    Err(_) => w1 == between,
                    Ok(track) => client::slot_applied::<T>(
                        between,
                        w1,
                        entity,
                        track,
                        bytes.skip(n as int),
                    ),
                },
        }
    }

    open spec fn accepts(tracks: Seq<server::TrackReplicate<Seq<u8>>>) -> bool {
        &&& tracks.len() > 0
        &&& R::accepts(tracks.drop_last())
        &&& client::slot_accepts::<T>(tracks.last())
    }

    open spec fn followed(
        w0: hecs::World,
        w1: hecs::World,
        entity: u64,
        tracks: Seq<server::TrackReplicate<Seq<u8>>>,
    ) -> bool {
        exists|between: hecs::World| #[trigger]
            R::followed(w0, between, entity, tracks.drop_last()) && client::slot_followed::<T>(
                between,
                w1,
                entity,
                tracks.last(),
            )
    }

    proof fn applied_is_followed(
        w0: hecs::World,
        w1: hecs::World,
        entity: u64,
        mask: u32,
        tracks: Seq<server::TrackReplicate<Seq<u8>>>,
        rest: Seq<u8>,
    ) {
        let firsts = tracks.drop_last();
        let last = tracks.last();
        let own: Seq<u8> = match last {
            server::TrackReplicate::Modified(pack) => pack,
            _ => Seq::empty(),
        };
        let bytes = replicas::states(tracks) + rest;
        assert(bytes =~= replicas::states(firsts) + (own + rest));
        assert forall|i: int| 0 <= i < firsts.len() implies mask::track_at(mask, i as nat) == Ok::<
            _,
            BadMessage,
        >((#[trigger] firsts[i]).kind()) by {
            assert(tracks[i] == firsts[i]);
        }
        R::applied_is_followed(w0, w1, entity, mask, firsts, own + rest);
        assert(mask::track_at(mask, R::count()) == Ok::<_, BadMessage>(last.kind())) by {
            assert(tracks[tracks.len() - 1] == last);
        }
        assert(bytes.skip(replicas::states(firsts).len() as int) =~= own + rest);
        if Self::applied(w0, w1, entity, mask, bytes) {
            let between = choose|between: hecs::World| #[trigger]
                R::applied(w0, between, entity, mask, bytes) && client::slot_applied::<T>(
                    between,
                    w1,
                    entity,
                    last.kind(),
                    own + rest,
                );
            R::applied_is_followed(w0, between, entity, mask, firsts, own + rest);
            assert(R::followed(w0, between, entity, firsts));
        }
    }

    fn slots() -> (slots: usize) {
        R::slots() + 1
    }

    fn fits(others: usize) -> (fits: bool) {
        others < mask::MASK_SLOTS && R::fits(others + 1)
    }

    fn apply(
        mask: u32,
        entity: u64,
        world: &mut hecs::World,
        input: &[u8],
        pos: usize,
    ) -> (result: Result<usize, BadMessage>) {
        let mid: usize = match R::apply(mask, entity, world, input, pos) {
            Ok(mid) => mid,
            Err(err) => {
                return Err(err);
            },
        };
        assert(input@.skip(mid as int) =~= input@.skip(pos as int).skip(mid - pos));
        match TrackReplicate::from_mask(R::slots(), &mask) {
            Ok(track) => client::replicate_one::<T>(track, entity, world, input, mid),
            Err(err) => Err(err),
        }
    }
}

/// Why an update of the world could not be applied, or not to its end.
#[derive(Clone, Copy, Debug, PartialEq, Eq, Structural)]
pub enum ReplicateError {
    /// The update's bytes are not what they should be.
    BadMessage(BadMessage),
    /// No entity could be had for an id.
    Mapper(MapperError),
    /// An entity that is gone has a handle that no other can ever follow.
    HandlesExhausted,
}

/// The id and the mask at the front of `bytes`, and the number of bytes that they take.
pub open spec fn header_read(bytes: Seq<u8>) -> Option<(u64, u32, nat)> {
    match codec::id_read(bytes) {
        None => None,
        Some((nid, n)) => match codec::mask_read(bytes.skip(n as int)) {
            None => None,
            Some((mask, k)) => Some((nid, mask, n + k)),
        },
    }
}

/// How many bytes one entity's update takes at the front of `bytes`.
pub open spec fn entity_read<R: Replicator>(bytes: Seq<u8>) -> Result<nat, BadMessage> {
    match header_read(bytes) {
        None => Err(BadMessage::InvalidBincode),
        Some((_, mask, n)) => match R::read(mask, bytes.skip(n as int)) {
            Err(err) => Err(err),
            Ok(k) => Ok(n + k),
        },
    }
}

/// How many bytes the updates of `count` entities take at the front of `bytes`.
pub open spec fn entities_read<R: Replicator>(count: nat, bytes: Seq<u8>) -> Result<
    nat,
    BadMessage,
>
    decreases count,
{
    if count == 0 {
        Ok(0)
    } else {
        match entities_read::<R>((count - 1) as nat, bytes) {
            Err(err) => Err(err),
            Ok(n) => match entity_read::<R>(bytes.skip(n as int)) {
                Err(err) => Err(err),
                Ok(k) => Ok(n + k),
            },
        }
    }
}

/// How many bytes `count` ids take at the front of `bytes`.
pub open spec fn ids_read(count: nat, bytes: Seq<u8>) -> Result<nat, BadMessage>
    decreases count,
{
    if count == 0 {
        Ok(0)
    } else {
        match ids_read((count - 1) as nat, bytes) {
            Err(err) => Err(err),
            Ok(n) => match codec::id_read(bytes.skip(n as int)) {
                None => Err(BadMessage::InvalidBincode),
                Some((_, k)) => Ok(n + k),
            },
        }
    }
}

/// `m1` and `w1` are the mapping `m0` and the world `w0` after the update of one entity, which
/// stands at the front of `bytes`, was applied with `result`.
pub open spec fn entity_applied<R: Replicator>(
    m0: Map<u64, u64>,
    w0: hecs::World,
    m1: Map<u64, u64>,
    w1: hecs::World,
    bytes: Seq<u8>,
    result: Result<(), ReplicateError>,
) -> bool {
    match header_read(bytes) {
        None => {
            &&& m1 == m0
            &&& w1 == w0
            &&& result == Err::<(), _>(ReplicateError::BadMessage(BadMessage::InvalidBincode))
        },
        Some((nid, mask, n)) => exists|between: hecs::World, entity: Result<u64, MapperError>|
         #[trigger]
            nid::obtained(m0, w0, m1, between, nid, entity) && match entity {
                Err(err) => w1 == between && result == Err::<(), _>(ReplicateError::Mapper(err)),
                Ok(e) => {
                    &&& R::applied(between, w1, e, mask, bytes.skip(n as int))
                    &&& result == (match R::read(mask, bytes.skip(n as int)) {
                        Ok(_) => Ok(()),
                        Err(err) => Err(ReplicateError::BadMessage(err)),
                    })
                },
            },
    }
}

/// `m1` and `w1` are the mapping `m0` and the world `w0` after the updates of `count` entities,
/// which stand at the front of `bytes`, were applied in order with `result`. The first that cannot
/// be applied ends it.
pub open spec fn entities_applied<R: Replicator>(
    count: nat,
    m0: Map<u64, u64>,
    w0: hecs::World,
    m1: Map<u64, u64>,
    w1: hecs::World,
    bytes: Seq<u8>,
    result: Result<(), ReplicateError>,
) -> bool
    decreases count,
{
    if count == 0 {
        m1 == m0 && w1 == w0 && result is Ok
    } else {
        let rest = (count - 1) as nat;
        ||| result is Err && entities_applied::<R>(rest, m0, w0, m1, w1, bytes, result)
        ||| exists|m: Map<u64, u64>, w: hecs::World|
            {
                &&& entities_applied::<R>(rest, m0, w0, m, w, bytes, Ok(()))
                &&& #[trigger] entity_applied::<R>(
                    m,
                    w,
                    m1,
                    w1,
                    bytes.skip(entities_read::<R>(rest, bytes)->Ok_0 as int),
                    result,
                )
            }
    }
}

/// `w1` is the world `w0` after the entity was despawned whose id under the mapping `m` stands at
/// the front of `bytes`, with `result`. Where there is no such entity nothing changes.
pub open spec fn removal_applied(
    m: Map<u64, u64>,
    w0: hecs::World,
    w1: hecs::World,
    bytes: Seq<u8>,
    result: Result<(), ReplicateError>,
) -> bool {
    match codec::id_read(bytes) {
        None => {
            &&& w1 == w0
            &&& result == Err::<(), _>(ReplicateError::BadMessage(BadMessage::InvalidBincode))
        },
        Some((nid, _)) => removed(m, w0, w1, nid, result),
    }
}

/// `w1` is the world `w0` after the entity of `nid` under the mapping `m`, if it has one, was
/// despawned with `result`. Where `m` has one the world is flushed first, whether the entity exists
/// or not.
pub open spec fn removed(
    m: Map<u64, u64>,
    w0: hecs::World,
    w1: hecs::World,
    nid: u64,
    result: Result<(), ReplicateError>,
) -> bool {
    if !m.contains_key(nid) {
        w1 == w0 && result is Ok
    } else if !world::population(w0).contains(m[nid]) {
        world::keeps(w0, w1) && result is Ok
    } else if m[nid] < world::LAST_GENERATION {
        world::despawned(w0, w1, m[nid]) && result is Ok
    } else {
        world::keeps(w0, w1) && result == Err::<(), _>(ReplicateError::HandlesExhausted)
    }
}

/// `w1` is the world `w0` after the entities were despawned whose `count` ids under the mapping
/// `m` stand at the front of `bytes`, with `result`. The first that cannot be read ends it.
pub open spec fn removals_applied(
    count: nat,
    m: Map<u64, u64>,
    w0: hecs::World,
    w1: hecs::World,
    bytes: Seq<u8>,
    result: Result<(), ReplicateError>,
) -> bool
    decreases count,
{
    if count == 0 {
        w1 == w0 && result is Ok
    } else {
        let rest = (count - 1) as nat;
        ||| result is Err && removals_applied(rest, m, w0, w1, bytes, result)
        ||| exists|w: hecs::World|
            {
                &&& removals_applied(rest, m, w0, w, bytes, Ok(()))
                &&& #[trigger] removal_applied(
                    m,
                    w,
                    w1,
                    bytes.skip(ids_read(rest, bytes)->Ok_0 as int),
                    result,
                )
            }
    }
}

/// `m1` and `w1` are the mapping `m0` and the world `w0` after an update of `updated` entities and
/// the removal of `removed`, which `bytes` holds, were applied with `result`.
pub open spec fn message_applied<R: Replicator>(
    updated: nat,
    removed: nat,
    m0: Map<u64, u64>,
    w0: hecs::World,
    m1: Map<u64, u64>,
    w1: hecs::World,
    bytes: Seq<u8>,
    result: Result<(), ReplicateError>,
) -> bool {
    ||| result is Err && entities_applied::<R>(updated, m0, w0, m1, w1, bytes, result)
    ||| exists|w: hecs::World|
        {
            &&& #[trigger] entities_applied::<R>(updated, m0, w0, m1, w, bytes, Ok(()))
            &&& removals_applied(
                removed,
                m1,
                w,
                w1,
                bytes.skip(entities_read::<R>(updated, bytes)->Ok_0 as int),
                result,
            )
        }
}

/// Applies the update of one entity that stands at `pos` of `input`. Gives the position behind it.
fn replicate_entity<R: Replicator>(
    input: &[u8],
    pos: usize,
    mapper: &mut EntityMapper,
    world: &mut hecs::World,
) -> (result: Result<usize, ReplicateError>)
    requires
        R::count() <= mask::MASK_SLOTS,
        pos <= input@.len(),
        world::flushable(*old(world)),
    ensures
        world::flushable(*final(world)),
        entity_applied::<R>(
            old(mapper)@,
            *old(world),
            final(mapper)@,
            *final(world),
            input@.skip(pos as int),
            (match result {
                Ok(_) => Ok(()),
                Err(err) => Err(err),
            }),
        ),
        result matches Ok(end) ==> {
            &&& entity_read::<R>(input@.skip(pos as int)) == Ok::<nat, BadMessage>(
                (end - pos) as nat,
            )
            &&& pos <= end <= input@.len()
        },
{
    let ghost bytes = input@.skip(pos as int);
    let (nid, mid) = match codec::decode_id(input, pos) {
        Some(read) => read,
        None => {
            return Err(ReplicateError::BadMessage(BadMessage::InvalidBincode));
        },
    };
    assert(input@.skip(mid as int) =~= bytes.skip(mid - pos));
    let (mask, start) = match codec::decode_mask(input, mid) {
        Some(read) => read,
        None => {
            return Err(ReplicateError::BadMessage(BadMessage::InvalidBincode));
        },
    };
    assert(input@.skip(start as int) =~= bytes.skip(start - pos));
    let obtained = mapper.get_or_spawn(world, NetId(nid));
    assert(nid::obtained(
        old(mapper)@,
        *old(world),
        mapper@,
        *world,
        header_read(bytes)->Some_0.0,
        obtained,
    ));
    let entity: u64 = match obtained {
        Ok(entity) => entity,
        Err(err) => {
            return Err(ReplicateError::Mapper(err));
        },
    };
    match R::apply(mask, entity, world, input, start) {
        Ok(end) => Ok(end),
        Err(err) => Err(ReplicateError::BadMessage(err)),
    }
}

/// Despawns the entity of `nid`, if there is one.
fn remove_entity(nid: NetId, mapper: &EntityMapper, world: &mut hecs::World) -> (result: Result<
    (),
    ReplicateError,
>)
    requires
        world::flushable(*old(world)),
    ensures
        world::flushable(*final(world)),
        removed(mapper@, *old(world), *final(world), nid.0, result),
{
    let ghost w0 = *world;
    let entity: u64 = match mapper.get(nid) {
        Some(entity) => entity,
        None => {
            return Ok(());
        },
    };
    let _ = world::count_entities(world);
    assert(world::population(*world) =~= world::population(w0));
    let exists = match world::net_id_of(world, entity) {
        Lookup::Found(_) => true,
        Lookup::NoSuchEntity => false,
        Lookup::MissingComponent => {
            let handles = world::all_entities(world);
            let mut found = false;
            for i in 0..handles.len()
                invariant
                    found == handles@.take(i as int).contains(entity),
            {
                assert(handles@.take(i + 1) =~= handles@.take(i as int).push(handles[i as int]));
                let ghost taken = handles@.take(i as int);
                if handles[i] == entity {
                    found = true;
                    assert(taken.push(entity)[i as int] == entity);
                }
                proof {
                    if taken.contains(entity) {
                        let k = choose|k: int| 0 <= k < taken.len() && taken[k] == entity;
                        assert(taken.push(handles[i as int])[k] == entity);
                    }
                }
            }
            assert(handles@.take(handles@.len() as int) =~= handles@);
            assert(found == handles@.to_set().contains(entity));
            found
        },
    };
    if !exists {
        return Ok(());
    }
    if entity >= world::LAST_GENERATION {
        return Err(ReplicateError::HandlesExhausted);
    }
    let _ = world::despawn(world, entity);
    Ok(())
}

/// Despawns the entity whose id stands at `pos` of `input`, if there is one. Gives the position
/// behind the id.
fn remove_next(
    input: &[u8],
    pos: usize,
    mapper: &EntityMapper,
    world: &mut hecs::World,
) -> (result: Result<usize, ReplicateError>)
    requires
        pos <= input@.len(),
        world::flushable(*old(world)),
    ensures
        world::flushable(*final(world)),
        removal_applied(
            mapper@,
            *old(world),
            *final(world),
            input@.skip(pos as int),
            (match result {
                Ok(_) => Ok(()),
                Err(err) => Err(err),
            }),
        ),
        result matches Ok(end) ==> {
            &&& codec::id_read(input@.skip(pos as int)) is Some
            &&& codec::id_read(input@.skip(pos as int))->Some_0.1 == end - pos
            &&& pos <= end <= input@.len()
        },
{
    match codec::decode_id(input, pos) {
        Some((nid, end)) => match remove_entity(NetId(nid), mapper, world) {
            Ok(()) => Ok(end),
            Err(err) => Err(err),
        },
        None => Err(ReplicateError::BadMessage(BadMessage::InvalidBincode)),
    }
}

/// Despawns the entities whose `count` ids stand at `pos` of `input`.
fn remove_entities(
    input: &[u8],
    pos: usize,
    count: usize,
    mapper: &EntityMapper,
    world: &mut hecs::World,
) -> (result: Result<(), ReplicateError>)
    requires
        pos <= input@.len(),
        world::flushable(*old(world)),
    ensures
        world::flushable(*final(world)),
        removals_applied(
            count as nat,
            mapper@,
            *old(world),
            *final(world),
            input@.skip(pos as int),
            result,
        ),
{
    let ghost w0 = *world;
    let ghost start = pos as int;
    let ghost tail = input@.skip(start);
    let mut at: usize = pos;
    let mut gone: usize = 0;
    while gone < count
        invariant
            gone <= count,
            start == pos,
            w0 == *old(world),
            start <= at <= input@.len(),
            tail == input@.skip(start),
            ids_read(gone as nat, tail) == Ok::<nat, BadMessage>((at - start) as nat),
            removals_applied(gone as nat, mapper@, w0, *world, tail, Ok(())),
            world::flushable(*world),
        decreases count - gone,
    {
        let ghost w = *world;
        assert(input@.skip(at as int) =~= tail.skip(at - start));
        let removed = remove_next(input, at, mapper, world);
        proof {
            let result: Result<(), ReplicateError> = match removed {
                Ok(_) => Ok(()),
                Err(err) => Err(err),
            };
            let k = (gone + 1) as nat;
            assert(removal_applied(
                mapper@,
                w,
                *world,
                tail.skip(ids_read((k - 1) as nat, tail)->Ok_0 as int),
                result,
            ));
            assert(removals_applied(k, mapper@, w0, *world, tail, result));
        }
        match removed {
            Ok(end) => {
                at = end;
                gone = gone + 1;
            },
            Err(err) => {
                proof {
                    lemma_removals_failed(
                        (gone + 1) as nat,
                        count as nat,
                        mapper@,
                        w0,
                        *world,
                        tail,
                        err,
                    );
                }
                return Err(err);
            },
        }
    }
    Ok(())
}

/// Applies an update of the world: spawns the entities that are not there yet, changes the
/// components that the update speaks of, and despawns the entities that are gone.
///
/// A bad update is applied as far as it can be read.
pub fn replicate<R: Replicator>(
    unpacked: WorldUnpacked<'_>,
    mapper: &mut EntityMapper,
    world: &mut hecs::World,
) -> (result: Result<(), ReplicateError>)
    requires
        R::count() <= mask::MASK_SLOTS,
        world::flushable(*old(world)),
    ensures
        world::flushable(*final(world)),
        message_applied::<R>(
            unpacked.updated as nat,
            unpacked.removed as nat,
            old(mapper)@,
            *old(world),
            final(mapper)@,
            *final(world),
            unpacked.raw@,
            result,
        ),
{
    let input = unpacked.raw;
    let ghost bytes = input@;
    let ghost m0 = mapper@;
    let ghost w0 = *world;
    let mut pos: usize = 0;
    let mut done: usize = 0;
    while done < unpacked.updated
        invariant
            R::count() <= mask::MASK_SLOTS,
            done <= unpacked.updated,
            bytes == input@,
            pos <= input@.len(),
            entities_read::<R>(done as nat, bytes) == Ok::<nat, BadMessage>(pos as nat),
            entities_applied::<R>(done as nat, m0, w0, mapper@, *world, bytes, Ok(())),
            m0 == old(mapper)@,
            w0 == *old(world),
            world::flushable(*world),
            bytes == unpacked.raw@,
        decreases unpacked.updated - done,
    {
        let ghost m = mapper@;
        let ghost w = *world;
        let replicated = replicate_entity::<R>(input, pos, mapper, world);
        proof {
            let result: Result<(), ReplicateError> = match replicated {
                Ok(_) => Ok(()),
                Err(err) => Err(err),
            };
            let k = (done + 1) as nat;
            assert(entity_applied::<R>(
                m,
                w,
                mapper@,
                *world,
                bytes.skip(entities_read::<R>((k - 1) as nat, bytes)->Ok_0 as int),
                result,
            ));
            assert(entities_applied::<R>(k, m0, w0, mapper@, *world, bytes, result));
        }
        match replicated {
            Ok(end) => {
                pos = end;
                done = done + 1;
            },
            Err(err) => {
                proof {
                    let k = (done + 1) as nat;
                    lemma_entities_failed::<R>(
                        k,
                        unpacked.updated as nat,
                        m0,
                        w0,
                        mapper@,
                        *world,
                        bytes,
                        err,
                    );
                }
                return Err(err);
            },
        }
    }
    let ghost w1 = *world;
    let removed = remove_entities(input, pos, unpacked.removed, mapper, world);
    assert(entities_applied::<R>(unpacked.updated as nat, m0, w0, mapper@, w1, bytes, Ok(())));
    removed
}

/// Updates that fail at one entity fail at every greater count of entities alike.
proof fn lemma_entities_failed<R: Replicator>(
    count: nat,
    total: nat,
    m0: Map<u64, u64>,
    w0: hecs::World,
    m1: Map<u64, u64>,
    w1: hecs::World,
    bytes: Seq<u8>,
    err: ReplicateError,
)
    requires
        count <= total,
        entities_applied::<R>(count, m0, w0, m1, w1, bytes, Err(err)),
    ensures
        entities_applied::<R>(total, m0, w0, m1, w1, bytes, Err(err)),
    decreases total - count,
{
    if count < total {
        lemma_entities_failed::<R>(count + 1, total, m0, w0, m1, w1, bytes, err);
    }
}

/// Removals that fail at one id fail at every greater count of ids alike.
proof fn lemma_removals_failed(
    count: nat,
    total: nat,
    m: Map<u64, u64>,
    w0: hecs::World,
    w1: hecs::World,
    bytes: Seq<u8>,
    err: ReplicateError,
)
    requires
        count <= total,
        removals_applied(count, m, w0, w1, bytes, Err(err)),
    ensures
        removals_applied(total, m, w0, w1, bytes, Err(err)),
    decreases total - count,
{
    if count < total {
        lemma_removals_failed(count + 1, total, m, w0, w1, bytes, err);
    }
}

} // verus!
