//! Types and traits to use on an authoritative server.

use crate::client;
use crate::client_server::PlayerId;
use crate::codec;
use crate::mask;
use crate::world;
use std::collections::VecDeque;
use vstd::prelude::*;

pub mod builder;
pub mod deltas;
pub mod laws;
pub mod replicas;
pub mod steps;
pub mod system;

pub use self::builder::{NoRemotePlayerType, ServerBuilder};
pub use self::system::{DummyRemotePlayer, RemotePlayer, ServerSystem};

verus! {

/// This component marks the entities that a server replicates.
#[derive(Clone, Copy, Debug, Default, PartialEq, Eq, PartialOrd, Ord, Hash)]
pub struct ServerOwned;

/// This component holds the [`NetId`] of an entity that a server has begun to replicate.
#[derive(Clone, Copy, Debug, PartialEq, Eq)]
pub struct ServerEntity(pub(crate) u64);

/// Result of [`Descriptor::replicate`].
/// Either signals that state wasn't modified and need not be sent,
/// or contains the state to send.
#[derive(Debug, PartialEq, Eq)]
pub enum Replicate<T> {
    Unmodified,
    Modified(T),
}

impl Replicate<Vec<u8>> {
    /// The same with the bytes as a sequence.
    pub open spec fn bytes(self) -> Replicate<Seq<u8>> {
        match self {
            Replicate::Unmodified => Replicate::Unmodified,
            Replicate::Modified(pack) => Replicate::Modified(pack@),
        }
    }
}

/// What `value` refers to.
pub open spec fn referent<T>(value: Option<&T>) -> Option<T> {
    match value {
        Some(value) => Some(*value),
        None => None,
    }
}

/// This trait manages components replication.
/// Typical implementation covers only one component, but is not limited to do so.
///
/// Both methods look at the components of one entity, which the entity may lack, and leave the
/// world as it was. `state` and `replica` are the descriptor's account of what they give.
pub trait Descriptor: Sized {
    /// State of the components at one point, kept by the server for diff-compression.
    type History;

    /// The history point that the state of `entity` in `w` makes; `None` where the entity lacks
    /// the components.
    open spec fn state(w: hecs::World, entity: u64) -> Option<Self::History> {
        arbitrary()
    }

    /// What is to be sent of the state of `entity` in `w` to one who has seen `history`, where
    /// the entity has the components.
    open spec fn replica(w: hecs::World, entity: u64, history: Option<Self::History>) -> Replicate<
        Seq<u8>,
    > {
        arbitrary()
    }

    /// Makes a history point from the current state.
    fn history(world: &mut hecs::World, entity: u64) -> (history: Option<Self::History>)
        ensures
            history == Self::state(*old(world), entity),
            *final(world) == *old(world),
    ;

    /// Replicates state.
    /// Returns the bytes to send or signals that state is unmodified and should be skipped;
    /// `None` where the entity lacks the components.
    fn replicate(world: &mut hecs::World, entity: u64, history: Option<&Self::History>) -> (pack:
        Option<Replicate<Vec<u8>>>)
        ensures
            pack is Some <==> Self::state(*old(world), entity) is Some,
            pack matches Some(pack) ==> pack.bytes() == Self::replica(
                *old(world),
                entity,
                referent(history),
            ),
            *final(world) == *old(world),
    ;
}

/// What a component that is sent whole is replicated as: nothing where its history equals it.
pub fn replicate_component<'a, T: PartialEq>(item: &'a T, history: Option<&T>) -> (replicate:
    Replicate<&'a T>)
    ensures
        match history {
            None => replicate == Replicate::Modified(item),
            Some(history) => {
                ||| replicate == Replicate::<&T>::Unmodified && call_ensures(
                    T::eq,
                    (history, item),
                    true,
                )
                ||| replicate == Replicate::Modified(item) && call_ensures(
                    T::eq,
                    (history, item),
                    false,
                )
            },
        },
{
    match history {
        Some(history) => if history.eq(item) {
            Replicate::Unmodified
        } else {
            Replicate::Modified(item)
        },
        None => Replicate::Modified(item),
    }
}

/// Replicates the [`PlayerId`] component.
pub struct PlayerIdDescriptor;

impl Descriptor for PlayerIdDescriptor {
    type History = PlayerId;

    open spec fn state(w: hecs::World, entity: u64) -> Option<PlayerId> {
        if world::player_ids(w).contains_key(entity) {
            Some(PlayerId(world::player_ids(w)[entity]))
        } else {
            None
        }
    }

    open spec fn replica(w: hecs::World, entity: u64, history: Option<PlayerId>) -> Replicate<
        Seq<u8>,
    > {
        if history == Self::state(w, entity) {
            Replicate::Unmodified
        } else {
            Replicate::Modified(codec::varint(world::player_ids(w)[entity]))
        }
    }

    fn history(world: &mut hecs::World, entity: u64) -> (history: Option<PlayerId>) {
        world::player_id_of(world, entity)
    }

    fn replicate(world: &mut hecs::World, entity: u64, history: Option<&PlayerId>) -> (pack: Option<
        Replicate<Vec<u8>>,
    >) {
        match world::player_id_of(world, entity) {
            None => None,
            Some(item) => match history {
                Some(history) if *history == item => Some(Replicate::Unmodified),
                _ => Some(Replicate::Modified(codec::encode(item.0))),
            },
        }
    }
}

/// Missing history entry.
#[derive(Clone, Copy, Debug, PartialEq, Eq, Structural)]
pub struct Missing;

/// Result of history tracking.
#[derive(Debug, PartialEq, Eq)]
pub enum TrackReplicate<T> {
    Unmodified,
    Modified(T),
    Removed,
}

impl<T> TrackReplicate<T> {
    /// The same without the state.
    pub open spec fn kind(self) -> client::TrackReplicate {
        match self {
            TrackReplicate::Unmodified => client::TrackReplicate::Unmodified,
            TrackReplicate::Modified(_) => client::TrackReplicate::Modified,
            TrackReplicate::Removed => client::TrackReplicate::Removed,
        }
    }

    /// Notes the change in `mask` for slot `idx`.
    pub fn write_mask(&self, idx: usize, mask: &mut u32)
        requires
            idx < mask::MASK_SLOTS,
        ensures
            *final(mask) == mask::mark(*old(mask), idx as nat, self.kind()),
    {
        match self {
            TrackReplicate::Unmodified => {},
            TrackReplicate::Modified(_) => {
                mask::set(mask, idx * 2);
                mask::set(mask, idx * 2 + 1);
            },
            TrackReplicate::Removed => {
                mask::set(mask, idx * 2);
            },
        }
    }
}

impl TrackReplicate<Vec<u8>> {
    /// The same with the bytes as a sequence.
    pub open spec fn bytes(self) -> TrackReplicate<Seq<u8>> {
        match self {
            TrackReplicate::Unmodified => TrackReplicate::Unmodified,
            TrackReplicate::Modified(pack) => TrackReplicate::Modified(pack@),
            TrackReplicate::Removed => TrackReplicate::Removed,
        }
    }
}

/// How far back no history reaches.
pub const BEYOND: u64 = 0xFFFF_FFFF_FFFF_FFFF;

/// The state `back` points before the newest of `history`, whose newest point comes first.
pub open spec fn past<T>(history: Seq<Option<T>>, back: u64) -> Result<Option<T>, Missing> {
    if back < history.len() && back < BEYOND {
        Ok(history[back as int])
    } else {
        Err(Missing)
    }
}

/// How the state of `entity` in `w` differs from the one `back` points before the newest of
/// `history`.
pub open spec fn track<D: Descriptor>(
    history: Seq<Option<D::History>>,
    back: u64,
    w: hecs::World,
    entity: u64,
) -> TrackReplicate<Seq<u8>> {
    let seen = match past(history, back) {
        Ok(seen) => seen,
        Err(_) => None,
    };
    match (D::state(w, entity), past(history, back)) {
        (None, Ok(None)) => TrackReplicate::Unmodified,
        (None, _) => TrackReplicate::Removed,
        (Some(_), _) => match D::replica(w, entity, seen) {
            Replicate::Unmodified => TrackReplicate::Unmodified,
            Replicate::Modified(pack) => TrackReplicate::Modified(pack),
        },
    }
}

/// State of one descriptor's components at each past step, the newest first.
pub struct History<T> {
    buf: VecDeque<Option<T>>,
}

impl<T> View for History<T> {
    type V = Seq<Option<T>>;

    closed spec fn view(&self) -> Seq<Option<T>> {
        self.buf@
    }
}

impl<T> History<T> {
    /// No past.
    pub fn new() -> (history: Self)
        ensures
            history@ == Seq::<Option<T>>::empty(),
    {
        History { buf: VecDeque::with_capacity(8) }
    }

    /// How the state of `entity` differs from the one `back` points before the newest.
    pub fn track_replicate<D: Descriptor<History = T>>(
        &self,
        back: u64,
        world: &mut hecs::World,
        entity: u64,
    ) -> (result: TrackReplicate<Vec<u8>>)
        ensures
            result.bytes() == track::<D>(self@, back, *old(world), entity),
            *final(world) == *old(world),
    {
        let old = self.fetch(back);
        let seen = match old {
            Ok(seen) => seen,
            Err(_) => None,
        };
        match (D::replicate(world, entity, seen), old) {
            (None, Ok(None)) => TrackReplicate::Unmodified,
            (None, _) => TrackReplicate::Removed,
            (Some(Replicate::Unmodified), _) => TrackReplicate::Unmodified,
            (Some(Replicate::Modified(pack)), _) => TrackReplicate::Modified(pack),
        }
    }

    /// The state `back` points before the newest.
    pub fn fetch(&self, back: u64) -> (state: Result<Option<&T>, Missing>)
        ensures
            match past(self@, back) {
                Ok(value) => state is Ok && referent(state->Ok_0) == value,
                Err(missing) => state == Err::<Option<&T>, Missing>(missing),
            },
    {
        if self.buf.len() as u64 <= back {
            Err(Missing)
        } else {
            Ok(self.buf[back as usize].as_ref())
        }
    }

    /// Adds the newest state.
    pub fn add(&mut self, value: Option<T>)
        ensures
            final(self)@ == seq![value] + old(self)@,
    {
        self.buf.push_front(value)
    }
}

/// `tracks` with the bytes as sequences.
pub open spec fn tracks_view(tracks: Seq<TrackReplicate<Vec<u8>>>) -> Seq<
    TrackReplicate<Seq<u8>>,
> {
    tracks.map_values(|track: TrackReplicate<Vec<u8>>| track.bytes())
}

/// `tracks` without the state.
pub open spec fn kinds<T>(tracks: Seq<TrackReplicate<T>>) -> Seq<client::TrackReplicate> {
    tracks.map_values(|track: TrackReplicate<T>| track.kind())
}

/// A row of descriptors: `()`, or a row and one more descriptor.
///
/// What is sent of an entity has one slot for each descriptor of a row, in their order. The last
/// of a server's row is always [`PlayerIdDescriptor`].
pub trait Replicator {
    /// One history for each descriptor.
    type Histories;

    /// How many descriptors there are.
    spec fn count() -> nat;

    /// None of the histories has a past.
    spec fn fresh(histories: Self::Histories) -> bool;

    /// `after` is `before` with the state of `entity` in `w` added to each history.
    spec fn recorded(
        before: Self::Histories,
        after: Self::Histories,
        w: hecs::World,
        entity: u64,
    ) -> bool;

    /// How each descriptor's state differs from the one `back` points before the newest.
    spec fn tracks(
        histories: Self::Histories,
        back: u64,
        w: hecs::World,
        entity: u64,
    ) -> Seq<TrackReplicate<Seq<u8>>>;

    /// There is one change for each descriptor.
    proof fn one_track_each(histories: Self::Histories, back: u64, w: hecs::World, entity: u64)
        ensures
            Self::tracks(histories, back, w, entity).len() == Self::count(),
    ;

    /// Whether a mask has room for the descriptors and `others` more.
    fn fits(others: usize) -> (fits: bool)
        ensures
            fits == (Self::count() + others <= mask::MASK_SLOTS),
    ;

    /// Histories without a past.
    fn histories() -> (histories: Self::Histories)
        ensures
            Self::fresh(histories),
    ;

    /// Adds the current state of `entity` to the histories.
    fn record(histories: &mut Self::Histories, world: &mut hecs::World, entity: u64)
        ensures
            Self::recorded(*old(histories), *final(histories), *old(world), entity),
            *final(world) == *old(world),
    ;

    /// Appends to `tracks` how each descriptor's state differs from the one `back` points before
    /// the newest.
    fn track(
        histories: &Self::Histories,
        back: u64,
        world: &mut hecs::World,
        entity: u64,
        tracks: &mut Vec<TrackReplicate<Vec<u8>>>,
    )
        ensures
            tracks_view(final(tracks)@) == tracks_view(old(tracks)@) + Self::tracks(
                *histories,
                back,
                *old(world),
                entity,
            ),
            *final(world) == *old(world),
    ;
}

impl Replicator for () {
    type Histories = ();

    open spec fn count() -> nat {
        0
    }

    open spec fn fresh(histories: ()) -> bool {
        true
    }

    open spec fn recorded(before: (), after: (), w: hecs::World, entity: u64) -> bool {
        true
    }

    open spec fn tracks(histories: (), back: u64, w: hecs::World, entity: u64) -> Seq<
        TrackReplicate<Seq<u8>>,
    > {
        Seq::empty()
    }

    proof fn one_track_each(histories: (), back: u64, w: hecs::World, entity: u64) {
    }

    fn fits(others: usize) -> (fits: bool) {
        others <= mask::MASK_SLOTS
    }

    fn histories() -> (histories: ()) {
    }

    fn record(histories: &mut (), world: &mut hecs::World, entity: u64) {
    }

    fn track(
        histories: &(),
        back: u64,
        world: &mut hecs::World,
        entity: u64,
        tracks: &mut Vec<TrackReplicate<Vec<u8>>>,
    ) {
        assert(tracks_view(tracks@) =~= tracks_view(tracks@) + Seq::empty());
    }
}

impl<R: Replicator, T: Descriptor> Replicator for (R, T) {
    type Histories = (R::Histories, History<T::History>);

    open spec fn count() -> nat {
        R::count() + 1
    }

    open spec fn fresh(histories: Self::Histories) -> bool {
        R::fresh(histories.0) && histories.1@ == Seq::<Option<T::History>>::empty()
    }

    open spec fn recorded(
        before: Self::Histories,
        after: Self::Histories,
        w: hecs::World,
        entity: u64,
    ) -> bool {
        &&& R::recorded(before.0, after.0, w, entity)
        &&& after.1@ == seq![T::state(w, entity)] + before.1@
    }

    open spec fn tracks(
        histories: Self::Histories,
        back: u64,
        w: hecs::World,
        entity: u64,
    ) -> Seq<TrackReplicate<Seq<u8>>> {
        R::tracks(histories.0, back, w, entity).push(track::<T>(histories.1@, back, w, entity))
    }

    proof fn one_track_each(histories: Self::Histories, back: u64, w: hecs::World, entity: u64) {
        R::one_track_each(histories.0, back, w, entity);
    }

    fn fits(others: usize) -> (fits: bool) {
        others < mask::MASK_SLOTS && R::fits(others + 1)
    }

    fn histories() -> (histories: Self::Histories) {
        (R::histories(), History::new())
    }

    fn record(histories: &mut Self::Histories, world: &mut hecs::World, entity: u64) {
        R::record(&mut histories.0, world, entity);
        let state = T::history(world, entity);
        histories.1.add(state);
    }

    fn track(
        histories: &Self::Histories,
        back: u64,
        world: &mut hecs::World,
        entity: u64,
        tracks: &mut Vec<TrackReplicate<Vec<u8>>>,
    ) {
        R::track(&histories.0, back, world, entity, tracks);
        let ghost before = tracks@;
        let last = histories.1.track_replicate::<T>(back, world, entity);
        tracks.push(last);
        assert(tracks_view(tracks@) =~= tracks_view(before).push(last.bytes()));
    }
}

} // verus!
