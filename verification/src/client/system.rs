//! The client of an authoritative server: its players, and what it sends and receives.

use crate::client::{Descriptor, PlayerIdDescriptor};
use crate::client::replicator::{self, ReplicateError, Replicator};
use crate::client_server::{ClientMessage, Connected, InputStep, PlayerId, ServerMessage};
use crate::client_server::client as session;
use crate::client_server::client::ClientError;
use crate::lloth_core::client_server::ClientSession;
use crate::mask;
use crate::nid::{EntityMapper, NetId};
use crate::schema::{InputPack, WorldUnpacked};
use crate::types;
use crate::world;
use std::any::TypeId;
use std::collections::HashSet;
use std::marker::PhantomData;
use vstd::prelude::*;

verus! {

broadcast use vstd::std_specs::hash::group_hash_axioms;

/// `commands` with the bytes as a sequence.
pub open spec fn commands_view(commands: Option<Vec<u8>>) -> Option<Seq<u8>> {
    match commands {
        Some(commands) => Some(commands@),
        None => None,
    }
}

/// This trait manages commands replication.
/// Typical implementation uses single component, but is not limited to do so. `taken` is its account
/// of what it does. It does not leave a world that cannot be flushed.
pub trait LocalPlayer: Sized {
    /// `w1` is `w0` after the commands of `entity` were taken, which are `commands`; `None` where
    /// the entity takes none.
    open spec fn taken(
        w0: hecs::World,
        w1: hecs::World,
        entity: u64,
        commands: Option<Seq<u8>>,
    ) -> bool {
        arbitrary()
    }

    /// Replicates state.
    /// Returns the bytes of all commands for an entity; `None` where the entity takes none.
    fn replicate(entity: u64, world: &mut hecs::World) -> (commands: Option<Vec<u8>>)
        ensures
            Self::taken(*old(world), *final(world), entity, commands_view(commands)),
            world::flushable(*old(world)) ==> world::flushable(*final(world)),
    ;
}

/// This type is dummy implementation of [`LocalPlayer`] trait.
pub struct DummyLocalPlayer;

impl LocalPlayer for DummyLocalPlayer {
    open spec fn taken(
        w0: hecs::World,
        w1: hecs::World,
        entity: u64,
        commands: Option<Seq<u8>>,
    ) -> bool {
        w1 == w0 && commands == Some(Seq::<u8>::empty())
    }

    fn replicate(entity: u64, world: &mut hecs::World) -> (commands: Option<Vec<u8>>) {
        Some(Vec::new())
    }
}

/// One input, as it is sent: the id of the entity that it is for, and the input.
pub type SentInput = (NetId, InputPack);

/// `inputs` with the bytes as sequences.
pub open spec fn inputs_view(inputs: Seq<(PlayerId, SentInput)>) -> Seq<
    (PlayerId, NetId, Seq<u8>),
> {
    inputs.map_values(|input: (PlayerId, SentInput)| (input.0, input.1.0, input.1.1.input@))
}

/// `rows` are the entities of `w` with both a player and an id, each once: handle, player, id.
pub open spec fn player_rows(rows: Seq<(u64, u64, u64)>, w: hecs::World) -> bool {
    &&& rows.no_duplicates()
    &&& forall|entity: u64, player: u64, nid: u64| #[trigger]
        rows.contains((entity, player, nid)) <==> {
            &&& world::player_ids(w).contains_pair(entity, player)
            &&& world::net_ids(w).contains_pair(entity, nid)
        }
}

/// `w1` is `w0` after the commands of those of `rows` were taken, in order, whose player is one of
/// `controlled`. `inputs` are the commands.
pub open spec fn inputs_taken<P: LocalPlayer>(
    controlled: Set<u64>,
    rows: Seq<(u64, u64, u64)>,
    w0: hecs::World,
    w1: hecs::World,
    inputs: Seq<(PlayerId, NetId, Seq<u8>)>,
) -> bool
    decreases rows.len(),
{
    if rows.len() == 0 {
        w1 == w0 && inputs.len() == 0
    } else {
        let (entity, player, nid) = rows.last();
        let rest = rows.drop_last();
        if controlled.contains(player) {
            exists|w: hecs::World, commands: Option<Seq<u8>>| #[trigger]
                P::taken(w, w1, entity, commands) && match commands {
                    None => inputs_taken::<P>(controlled, rest, w0, w, inputs),
                    Some(bytes) => {
                        &&& inputs.len() > 0
                        &&& inputs.last() == (PlayerId(player), NetId(nid), bytes)
                        &&& inputs_taken::<P>(controlled, rest, w0, w, inputs.drop_last())
                    },
                }
        } else {
            inputs_taken::<P>(controlled, rest, w0, w1, inputs)
        }
    }
}

/// Takes the commands of each entity whose player is one of `controlled`.
pub fn send_inputs<P: LocalPlayer>(controlled: &HashSet<u64>, world: &mut hecs::World) -> (inputs:
    Vec<(PlayerId, SentInput)>)
    ensures
        world::flushable(*old(world)) ==> world::flushable(*final(world)),
        exists|rows: Seq<(u64, u64, u64)>| #[trigger]
            player_rows(rows, *old(world)) && inputs_taken::<P>(
                controlled@,
                rows,
                *old(world),
                *final(world),
                inputs_view(inputs@),
            ),
{
    let rows = world::player_entities(world);
    let ghost w0 = *world;
    assert(player_rows(rows@, *old(world)));
    let mut inputs: Vec<(PlayerId, SentInput)> = Vec::new();
    assert(rows@.take(0) =~= Seq::empty());
    for i in 0..rows.len()
        invariant
            world::flushable(w0) ==> world::flushable(*world),
            inputs_taken::<P>(
                controlled@,
                rows@.take(i as int),
                w0,
                *world,
                inputs_view(inputs@),
            ),
    {
        let (entity, player, nid) = rows[i];
        let ghost before = inputs@;
        let ghost w = *world;
        assert(rows@.take(i + 1).drop_last() =~= rows@.take(i as int));
        if controlled.contains(&player) {
            let commands = P::replicate(entity, world);
            assert(P::taken(w, *world, entity, commands_view(commands)));
            if let Some(input) = commands {
                inputs.push((PlayerId(player), (NetId(nid), InputPack { input })));
                assert(inputs_view(inputs@).drop_last() =~= inputs_view(before));
            }
        }
    }
    assert(rows@.take(rows@.len() as int) =~= rows@);
    inputs
}

/// What went wrong in taking a message from the server.
#[derive(Debug, PartialEq, Eq)]
pub enum RunError<E> {
    /// The session failed.
    Session(ClientError<E>),
    /// The update could not be applied.
    Replicate(ReplicateError),
}

/// A player was added under an id that another of this client's players has.
#[derive(Clone, Copy, Debug, PartialEq, Eq, Structural)]
pub struct PlayerIdCollision(pub PlayerId);

/// Client system that connects to authoritative server.
pub struct ClientSystem<C, P, R> {
    session: Option<ClientSession<C>>,
    mapper: EntityMapper,
    controlled: HashSet<u64>,
    marker: PhantomData<(P, R)>,
}

impl ClientSystem<(), DummyLocalPlayer, ()> {
    /// Returns builder to configure new [`ClientSystem`].
    pub fn builder() -> (builder: ClientBuilder<NoLocalPlayerType, ()>)
        ensures
            builder.ids().len() == 0,
    {
        ClientBuilder::new()
    }
}

impl<C, P, R> ClientSystem<C, P, R> {
    /// The session with the server, if there is one.
    pub closed spec fn link(self) -> Option<ClientSession<C>> {
        self.session
    }

    /// The entities by their ids.
    pub closed spec fn mapper(self) -> EntityMapper {
        self.mapper
    }

    /// The players that this client added.
    pub closed spec fn controlled(self) -> Set<u64> {
        self.controlled@
    }

    /// A client without a session, players and entities.
    pub fn new() -> (system: Self)
        ensures
            system.link() is None,
            system.mapper()@ == Map::<u64, u64>::empty(),
            system.controlled() == Set::<u64>::empty(),
    {
        ClientSystem {
            session: None,
            mapper: EntityMapper::new(),
            controlled: HashSet::new(),
            marker: PhantomData,
        }
    }

    /// Takes a session that was opened. The one before it, if any, is dropped.
    pub fn connect(&mut self, session: ClientSession<C>)
        ensures
            final(self).link() == Some(session),
            final(self).mapper() == old(self).mapper(),
            final(self).controlled() == old(self).controlled(),
    {
        self.session = Some(session);
    }

    /// The session with the server, if there is one.
    pub fn session(&mut self) -> (session: &mut Option<ClientSession<C>>)
        ensures
            *session == old(self).link(),
            final(self).link() == *final(session),
            final(self).mapper() == old(self).mapper(),
            final(self).controlled() == old(self).controlled(),
    {
        &mut self.session
    }

    /// Takes the id under which the server added a new player of this client. From then on the
    /// commands of the player's entities are sent.
    pub fn add_player(&mut self, id: PlayerId) -> (result: Result<PlayerId, PlayerIdCollision>)
        ensures
            final(self).controlled() == old(self).controlled().insert(id.0),
            final(self).link() == old(self).link(),
            final(self).mapper() == old(self).mapper(),
            result == (if old(self).controlled().contains(id.0) {
                Err::<PlayerId, PlayerIdCollision>(PlayerIdCollision(id))
            } else {
                Ok(id)
            }),
    {
        if self.controlled.insert(id.0) {
            Ok(id)
        } else {
            Err(PlayerIdCollision(id))
        }
    }
}

impl<C, P: LocalPlayer, R: Replicator> ClientSystem<C, P, R> {
    /// What is sent of the commands of all entities controlled by one of this client's players;
    /// `None` where there is no session, and then nothing is taken.
    pub fn send_inputs<A>(&self, world: &mut hecs::World) -> (message: Option<
        ClientMessage<InputStep, A, SentInput>,
    >)
        ensures
            world::flushable(*old(world)) ==> world::flushable(*final(world)),
            message is Some <==> self.link() is Some,
            message is None ==> *final(world) == *old(world),
            message matches Some(message) ==> {
                &&& message is Inputs
                &&& message->at == (InputStep {
                    step: self.link()->Some_0.step(),
                    next_update_step: self.link()->Some_0.next_update_step(),
                })
                &&& exists|inputs: Seq<(PlayerId, SentInput)>, rows: Seq<(u64, u64, u64)>|
                    {
                        &&& message->inputs@ == crate::client_server::named(inputs)
                        &&& #[trigger] player_rows(rows, *old(world))
                        &&& inputs_taken::<P>(
                            self.controlled(),
                            rows,
                            *old(world),
                            *final(world),
                            #[trigger] inputs_view(inputs),
                        )
                    }
            },
    {
        match &self.session {
            Some(session) => {
                let inputs = send_inputs::<P>(&self.controlled, world);
                let ghost sent = inputs@;
                let message = session.send_inputs(inputs);
                assert(inputs_view(sent) == inputs_view(sent));
                Some(message)
            },
            None => None,
        }
    }

    /// Takes a message from the server. Gives whether another is to be received. An update of the
    /// world is applied.
    pub fn receive<'a, J, E>(
        &mut self,
        received: Result<Option<ServerMessage<Connected, J, WorldUnpacked<'a>>>, E>,
        world: &mut hecs::World,
    ) -> (result: Result<bool, RunError<E>>)
        requires
            world::flushable(*old(world)),
            R::count() < mask::MASK_SLOTS,
            old(self).link() is Some,
            old(self).link()->Some_0.step() < u64::MAX,
            received matches Ok(Some(ServerMessage::Updates { server_step, .. })) ==> server_step
                < u64::MAX,
        ensures
            world::flushable(*final(world)),
            final(self).controlled() == old(self).controlled(),
            final(self).link() is Some,
            final(self).link()->Some_0.link() == old(self).link()->Some_0.link(),
            ({
                let s0 = old(self).link()->Some_0;
                let s1 = final(self).link()->Some_0;
                match session::updating(received) {
                    Err(err) => {
                        &&& result == Err::<bool, RunError<E>>(RunError::Session(err))
                        &&& s1.step() == s0.step()
                        &&& s1.next_update_step() == s0.next_update_step()
                        &&& final(self).mapper() == old(self).mapper()
                        &&& *final(world) == *old(world)
                    },
                    Ok(None) => {
                        &&& result == Ok::<bool, RunError<E>>(false)
                        &&& s1.step() == s0.step() + 1
                        &&& s1.next_update_step() == s0.next_update_step()
                        &&& final(self).mapper() == old(self).mapper()
                        &&& *final(world) == *old(world)
                    },
                    Ok(Some(updates)) => {
                        &&& s1.step() == s0.step() + 1
                        &&& s1.next_update_step() == updates.server_step + 1
                        &&& result is Ok ==> result == Ok::<bool, RunError<E>>(true)
                        &&& result matches Err(err) ==> err is Replicate
                        &&& replicator::message_applied::<(R, PlayerIdDescriptor)>(
                            updates.updates.updated as nat,
                            updates.updates.removed as nat,
                            old(self).mapper()@,
                            *old(world),
                            final(self).mapper()@,
                            *final(world),
                            updates.updates.raw@,
                            (match result {
                                Err(RunError::Replicate(err)) => Err(err),
                                _ => Ok(()),
                            }),
                        )
                    },
                }
            }),
    {
        let session = match &mut self.session {
            Some(session) => session,
            None => {
                return Ok(false);
            },
        };
        match session.advance(received) {
            Err(err) => Err(RunError::Session(err)),
            Ok(None) => Ok(false),
            Ok(Some(updates)) => {
                let result = replicator::replicate::<(R, PlayerIdDescriptor)>(
                    updates.updates,
                    &mut self.mapper,
                    world,
                );
                assert(result is Ok ==> result->Ok_0 == ());
                match result {
                    Ok(()) => Ok(true),
                    Err(err) => Err(RunError::Replicate(err)),
                }
            },
        }
    }
}

/// This type implements builder-pattern to configure [`ClientSystem`].
/// Allows adding new descriptors and setting local player type.
pub struct ClientBuilder<I, R> {
    ids: Vec<TypeId>,
    marker: PhantomData<(I, R)>,
}

/// Marker type signals that local player type is not set.
/// [`ClientBuilder`] starts with this type parameter in place where [`LocalPlayer`] is expected.
pub struct NoLocalPlayerType;

impl<I, R> ClientBuilder<I, R> {
    /// The descriptors that were added, in order.
    pub closed spec fn ids(self) -> Seq<TypeId> {
        self.ids@
    }
}

impl ClientBuilder<NoLocalPlayerType, ()> {
    /// Returns new un-configured [`ClientBuilder`].
    pub fn new() -> (builder: Self)
        ensures
            builder.ids() == Seq::<TypeId>::empty(),
    {
        ClientBuilder { ids: Vec::new(), marker: PhantomData }
    }
}

impl<R> ClientBuilder<NoLocalPlayerType, R> {
    /// Sets type of local player.
    pub fn with_player<P: LocalPlayer>(self) -> (builder: ClientBuilder<P, R>)
        ensures
            builder.ids() == self.ids(),
    {
        ClientBuilder { ids: self.ids, marker: PhantomData }
    }
}

impl<P, R> ClientBuilder<P, R> {
    /// Adds a descriptor that is told from others by `id`; `None` where it was added before.
    pub fn with_descriptor_id<T: Descriptor>(self, id: TypeId) -> (builder: Option<
        ClientBuilder<P, (R, T)>,
    >)
        ensures
            builder is None <==> self.ids().contains(id),
            builder matches Some(builder) ==> builder.ids() == self.ids().push(id),
    {
        if types::holds(&self.ids, &id) {
            return None;
        }
        let mut ids = self.ids;
        ids.push(id);
        Some(ClientBuilder { ids, marker: PhantomData })
    }

    /// Adds component descriptor to manage state replication; `None` where it was added before.
    pub fn with_descriptor<T: Descriptor + 'static>(self) -> (builder: Option<
        ClientBuilder<P, (R, T)>,
    >)
        ensures
            exists|id: TypeId|
                {
                    &&& #[trigger] call_ensures(types::id_of::<T>, (), id)
                    &&& builder is None <==> self.ids().contains(id)
                    &&& builder matches Some(builder) ==> builder.ids() == self.ids().push(id)
                },
    {
        let id_of = types::id_of::<T>;
        self.with_descriptor_id::<T>(id_of())
    }
}

impl<P: LocalPlayer, R: Replicator> ClientBuilder<P, R> {
    /// Builds [`ClientSystem`] configured to use provided local player and descriptors.
    pub fn build<C>(&self) -> (system: ClientSystem<C, P, R>)
        ensures
            system.link() is None,
            system.mapper()@ == Map::<u64, u64>::empty(),
            system.controlled() == Set::<u64>::empty(),
    {
        ClientSystem::new()
    }
}

} // verus!
