//! Types to use on a client that connects to an authoritative server.

use crate::codec;
use crate::mask;
use crate::server;
use crate::world;
use vstd::prelude::*;

pub mod laws;
pub mod replicator;
pub mod system;

pub use self::system::{
    ClientBuilder, ClientSystem, DummyLocalPlayer, LocalPlayer, NoLocalPlayerType,
};

verus! {

/// Error that is returned if parsing a server message failed.
///
/// A bad message may still be partially parsed and processed, causing state to be partially
/// replicated.
#[derive(Clone, Copy, Debug, PartialEq, Eq, Structural)]
pub enum BadMessage {
    InvalidMask,
    InvalidBincode,
}

/// What a mask says of one descriptor's state.
#[derive(Clone, Copy, Debug, PartialEq, Eq, Structural)]
pub enum TrackReplicate {
    Unmodified,
    Modified,
    Removed,
}

impl TrackReplicate {
    /// Reads what `mask` says of slot `idx`.
    pub fn from_mask(idx: usize, mask: &u32) -> (track: Result<Self, BadMessage>)
        requires
            idx <= (usize::MAX - 1) / 2,
        ensures
            track == mask::track_at(*mask, idx as nat),
    {
        match (mask::test(mask, idx * 2), mask::test(mask, idx * 2 + 1)) {
            (false, false) => Ok(TrackReplicate::Unmodified),
            (true, true) => Ok(TrackReplicate::Modified),
            (true, false) => Ok(TrackReplicate::Removed),
            (false, true) => Err(BadMessage::InvalidMask),
        }
    }
}

/// This trait manages components replication.
/// Typical implementation covers only one component, but is not limited to do so.
///
/// No method despawns the entity that it is called for, or leaves a world that cannot be flushed.
/// `decoded`, `has`, `inserted`, `modified` and `removed` are the descriptor's account of what the
/// methods do.
pub trait Descriptor: Sized {
    /// State, ready to be put into the world.
    type Pack;

    /// The state that the front of `bytes` holds, and the number of bytes that it takes; `None`
    /// where the front of `bytes` holds none.
    open spec fn decoded(bytes: Seq<u8>) -> Option<(Self::Pack, nat)> {
        arbitrary()
    }

    /// Whether `entity` has the components in `w`.
    open spec fn has(w: hecs::World, entity: u64) -> bool {
        arbitrary()
    }

    /// `w1` is `w0` after the components of `entity` were inserted.
    open spec fn inserted(w0: hecs::World, w1: hecs::World, entity: u64, pack: Self::Pack) -> bool {
        arbitrary()
    }

    /// `w1` is `w0` after the components of `entity` were modified.
    open spec fn modified(w0: hecs::World, w1: hecs::World, entity: u64, pack: Self::Pack) -> bool {
        arbitrary()
    }

    /// `w1` is `w0` after the components of `entity` were removed.
    open spec fn removed(w0: hecs::World, w1: hecs::World, entity: u64) -> bool {
        arbitrary()
    }

    /// Reads state at `pos`; gives it and the position behind it.
    fn decode(input: &[u8], pos: usize) -> (value: Option<(Self::Pack, usize)>)
        requires
            pos <= input@.len(),
        ensures
            value is Some <==> Self::decoded(input@.skip(pos as int)) is Some,
            value matches Some((pack, end)) ==> {
                &&& Self::decoded(input@.skip(pos as int)) == Some((pack, (end - pos) as nat))
                &&& pos <= end <= input@.len()
            },
    ;

    /// Whether `entity` has the components.
    fn present(entity: u64, world: &mut hecs::World) -> (present: bool)
        ensures
            present == Self::has(*old(world), entity),
            *final(world) == *old(world),
    ;

    /// Insert components managed by this descriptor.
    /// This method is called during replication if the entity lacks them.
    fn insert(pack: Self::Pack, entity: u64, world: &mut hecs::World)
        requires
            world::flushable(*old(world)),
            world::entities(*old(world)).contains(entity),
            !Self::has(*old(world), entity),
        ensures
            Self::inserted(*old(world), *final(world), entity, pack),
            world::entities(*final(world)).contains(entity),
            world::flushable(*final(world)),
    ;

    /// Modify components managed by this descriptor.
    /// This method is called during replication if the entity has them.
    fn modify(pack: Self::Pack, entity: u64, world: &mut hecs::World)
        requires
            world::flushable(*old(world)),
            world::entities(*old(world)).contains(entity),
            Self::has(*old(world), entity),
        ensures
            Self::modified(*old(world), *final(world), entity, pack),
            world::entities(*final(world)).contains(entity),
            world::flushable(*final(world)),
    ;

    /// Remove components managed by this descriptor.
    /// This method is called during replication if the entity has them.
    fn remove(entity: u64, world: &mut hecs::World)
        requires
            world::flushable(*old(world)),
            world::entities(*old(world)).contains(entity),
            Self::has(*old(world), entity),
        ensures
            Self::removed(*old(world), *final(world), entity),
            world::entities(*final(world)).contains(entity),
            world::flushable(*final(world)),
    ;
}

/// Replicates the [`PlayerId`](crate::client_server::PlayerId) component.
pub struct PlayerIdDescriptor;

impl Descriptor for PlayerIdDescriptor {
    /// The player's number, which is not zero.
    type Pack = u64;

    open spec fn decoded(bytes: Seq<u8>) -> Option<(u64, nat)> {
        codec::id_read(bytes)
    }

    open spec fn has(w: hecs::World, entity: u64) -> bool {
        world::player_ids(w).contains_key(entity)
    }

    open spec fn inserted(w0: hecs::World, w1: hecs::World, entity: u64, pack: u64) -> bool {
        &&& world::with_players(w0, w1, world::player_ids(w0).insert(entity, pack))
        &&& world::flushed(w0, w1)
    }

    open spec fn modified(w0: hecs::World, w1: hecs::World, entity: u64, pack: u64) -> bool {
        &&& world::with_players(w0, w1, world::player_ids(w0).insert(entity, pack))
        &&& world::entities(w1) == world::entities(w0)
        &&& world::reserved(w1) == world::reserved(w0)
    }

    open spec fn removed(w0: hecs::World, w1: hecs::World, entity: u64) -> bool {
        &&& world::with_players(w0, w1, world::player_ids(w0).remove(entity))
        &&& world::flushed(w0, w1)
    }

    fn decode(input: &[u8], pos: usize) -> (value: Option<(u64, usize)>) {
        codec::decode_id(input, pos)
    }

    fn present(entity: u64, world: &mut hecs::World) -> (present: bool) {
        world::player_id_of(world, entity).is_some()
    }

    fn insert(pack: u64, entity: u64, world: &mut hecs::World) {
        let _ = world::insert_player_id(world, entity, pack);
    }

    fn modify(pack: u64, entity: u64, world: &mut hecs::World) {
        let _ = world::set_player_id(world, entity, pack);
    }

    fn remove(entity: u64, world: &mut hecs::World) {
        let _ = world::remove_player_id(world, entity);
    }
}

/// How many bytes the state of one descriptor takes at the front of `bytes`, where its slot says
/// `track`.
pub open spec fn slot_read<T: Descriptor>(track: TrackReplicate, bytes: Seq<u8>) -> Result<
    nat,
    BadMessage,
> {
    match track {
        TrackReplicate::Modified => match T::decoded(bytes) {
            Some((_, n)) => Ok(n),
            None => Err(BadMessage::InvalidBincode),
        },
        _ => Ok(0),
    }
}

/// `w1` is `w0` after one descriptor's slot, which says `track`, was applied to `entity`, with new
/// state taken from the front of `bytes`. Where no state can be had nothing changes.
pub open spec fn slot_applied<T: Descriptor>(
    w0: hecs::World,
    w1: hecs::World,
    entity: u64,
    track: TrackReplicate,
    bytes: Seq<u8>,
) -> bool {
    match track {
        TrackReplicate::Unmodified => w1 == w0,
        TrackReplicate::Removed => if T::has(w0, entity) {
            T::removed(w0, w1, entity)
        } else {
            w1 == w0
        },
        TrackReplicate::Modified => match T::decoded(bytes) {
            None => w1 == w0,
            Some((pack, _)) => if T::has(w0, entity) {
                T::modified(w0, w1, entity, pack)
            } else {
                T::inserted(w0, w1, entity, pack)
            },
        },
    }
}

/// Whether the new state that `track` holds, if it holds one, can be read, whatever bytes follow.
pub open spec fn slot_accepts<T: Descriptor>(track: server::TrackReplicate<Seq<u8>>) -> bool {
    track matches server::TrackReplicate::Modified(pack) ==> {
        &&& T::decoded(pack) is Some
        &&& forall|rest: Seq<u8>| #[trigger]
            T::decoded(pack + rest) == Some((T::decoded(pack)->Some_0.0, pack.len()))
    }
}

/// `w1` is `w0` after one descriptor did with `entity` what `track` tells.
pub open spec fn slot_followed<T: Descriptor>(
    w0: hecs::World,
    w1: hecs::World,
    entity: u64,
    track: server::TrackReplicate<Seq<u8>>,
) -> bool {
    match track {
        server::TrackReplicate::Unmodified => w1 == w0,
        server::TrackReplicate::Removed => if T::has(w0, entity) {
            T::removed(w0, w1, entity)
        } else {
            w1 == w0
        },
        server::TrackReplicate::Modified(pack) => if T::has(w0, entity) {
            T::modified(w0, w1, entity, T::decoded(pack)->Some_0.0)
        } else {
            T::inserted(w0, w1, entity, T::decoded(pack)->Some_0.0)
        },
    }
}

/// `result` says that what stands at `pos` takes as many bytes as `read` says, or that it is bad.
pub open spec fn ends_at(
    result: Result<usize, BadMessage>,
    pos: usize,
    read: Result<nat, BadMessage>,
    len: nat,
) -> bool {
    match result {
        Ok(end) => read == Ok::<nat, BadMessage>((end - pos) as nat) && pos <= end <= len,
        Err(err) => read == Err::<nat, BadMessage>(err),
    }
}

/// Applies what the slot of one descriptor says, `track`, to `entity`. New state is read at `pos`
/// of `input`. Gives the position behind it.
pub fn replicate_one<T: Descriptor>(
    track: TrackReplicate,
    entity: u64,
    world: &mut hecs::World,
    input: &[u8],
    pos: usize,
) -> (result: Result<usize, BadMessage>)
    requires
        world::flushable(*old(world)),
        world::entities(*old(world)).contains(entity),
        pos <= input@.len(),
    ensures
        ends_at(result, pos, slot_read::<T>(track, input@.skip(pos as int)), input@.len()),
        slot_applied::<T>(*old(world), *final(world), entity, track, input@.skip(pos as int)),
        world::entities(*final(world)).contains(entity),
        world::flushable(*final(world)),
{
    let present = T::present(entity, world);
    match (present, track) {
        (_, TrackReplicate::Unmodified) => Ok(pos),
        (false, TrackReplicate::Removed) => Ok(pos),
        (true, TrackReplicate::Removed) => {
            T::remove(entity, world);
            Ok(pos)
        },
        (false, TrackReplicate::Modified) => match T::decode(input, pos) {
            Some((pack, end)) => {
                T::insert(pack, entity, world);
                Ok(end)
            },
            None => Err(BadMessage::InvalidBincode),
        },
        (true, TrackReplicate::Modified) => match T::decode(input, pos) {
            Some((pack, end)) => {
                T::modify(pack, entity, world);
                Ok(end)
            },
            None => Err(BadMessage::InvalidBincode),
        },
    }
}

} // verus!
