//! The authoritative server: its players, its entities and its steps.

use crate::client_server::{
    AddPlayerEvent, ClientConnectEvent, ClientId, ClientMessage, Connected, Event, InputStep,
    InputsEvent, PlayerId, ServerMessage, ServerSession,
};
use crate::client_server::server as session;
use crate::keys;
use crate::mask;
use crate::nid::{EntityMapper, IdGen, NetId, ZeroNetIdError};
use crate::server::{PlayerIdDescriptor, Replicator};
use crate::server::builder::{NoRemotePlayerType, ServerBuilder};
use crate::server::replicas::{self, Replicas, WorldReplicaPack};
use crate::world;
use std::collections::HashMap;
use vstd::prelude::*;

verus! {

broadcast use vstd::std_specs::hash::group_hash_axioms;

/// This trait defines how players are connected and commands are processed.
///
/// `info_of`, `input_of`, `accepted`, `left` and `applied` are a player's account of what the
/// methods do. None of them leaves a world that cannot be flushed.
pub trait RemotePlayer: Sized {
    /// Player info type.
    /// It is taken from the message sent when a new player is added by a connected client.
    type Info;

    /// Player input type.
    /// It is taken from an input message sent with an associated player id.
    type Input;

    /// Why a player is not accepted.
    type Error;

    /// The info that `bytes` hold; `None` where they hold none.
    open spec fn info_of(bytes: Seq<u8>) -> Option<Self::Info> {
        arbitrary()
    }

    /// The input that `bytes` hold; `None` where they hold none.
    open spec fn input_of(bytes: Seq<u8>) -> Option<Self::Input> {
        arbitrary()
    }

    /// `w1` is `w0` after a player with `info` asked to join as `pid`, with `result`.
    open spec fn accepted(
        info: Self::Info,
        pid: PlayerId,
        w0: hecs::World,
        w1: hecs::World,
        result: Result<Self, Self::Error>,
    ) -> bool {
        arbitrary()
    }

    /// `w1` is `w0` after this player left.
    open spec fn left(self, w0: hecs::World, w1: hecs::World) -> bool {
        arbitrary()
    }

    /// `w1` is `w0` after `input` of the player `before`, who then is `after`, was applied to
    /// `entity`.
    open spec fn applied(
        before: Self,
        after: Self,
        entity: u64,
        w0: hecs::World,
        w1: hecs::World,
        input: Self::Input,
    ) -> bool {
        arbitrary()
    }

    /// Reads player info.
    fn decode_info(bytes: &[u8]) -> (info: Option<Self::Info>)
        ensures
            info == Self::info_of(bytes@),
    ;

    /// Reads an input.
    fn decode_input(bytes: &[u8]) -> (input: Option<Self::Input>)
        ensures
            input == Self::input_of(bytes@),
    ;

    /// Verifies player info.
    ///
    /// On success spawns required entities. Attaches provided `PlayerId` to entities that must
    /// receive commands from client. Returns `Self` associated to spawned entities.
    ///
    /// On error returns a reason.
    fn accept(info: Self::Info, pid: PlayerId, world: &mut hecs::World) -> (result: Result<
        Self,
        Self::Error,
    >)
        ensures
            Self::accepted(info, pid, *old(world), *final(world), result),
            world::flushable(*old(world)) ==> world::flushable(*final(world)),
    ;

    /// Hook to perform an action when player is removed.
    fn disconnected(self, world: &mut hecs::World)
        ensures
            self.left(*old(world), *final(world)),
            world::flushable(*old(world)) ==> world::flushable(*final(world)),
    ;

    /// Process input sent by associated player.
    /// This function is called for each entity that receives commands from the player.
    fn apply_input(&mut self, entity: u64, world: &mut hecs::World, input: Self::Input)
        ensures
            Self::applied(*old(self), *final(self), entity, *old(world), *final(world), input),
            world::flushable(*old(world)) ==> world::flushable(*final(world)),
    ;
}

/// This type is dummy implementation of [`RemotePlayer`] trait.
pub struct DummyRemotePlayer;

impl RemotePlayer for DummyRemotePlayer {
    type Info = ();

    type Input = ();

    type Error = ();

    open spec fn info_of(bytes: Seq<u8>) -> Option<()> {
        Some(())
    }

    open spec fn input_of(bytes: Seq<u8>) -> Option<()> {
        Some(())
    }

    open spec fn accepted(
        info: (),
        pid: PlayerId,
        w0: hecs::World,
        w1: hecs::World,
        result: Result<Self, ()>,
    ) -> bool {
        w1 == w0 && result is Ok
    }

    open spec fn left(self, w0: hecs::World, w1: hecs::World) -> bool {
        w1 == w0
    }

    open spec fn applied(
        before: Self,
        after: Self,
        entity: u64,
        w0: hecs::World,
        w1: hecs::World,
        input: (),
    ) -> bool {
        w1 == w0
    }

    fn decode_info(bytes: &[u8]) -> (info: Option<()>) {
        Some(())
    }

    fn decode_input(bytes: &[u8]) -> (input: Option<()>) {
        Some(())
    }

    fn accept(info: (), pid: PlayerId, world: &mut hecs::World) -> (result: Result<Self, ()>) {
        Ok(DummyRemotePlayer)
    }

    fn disconnected(self, world: &mut hecs::World) {
    }

    fn apply_input(&mut self, entity: u64, world: &mut hecs::World, input: ()) {
    }
}

/// A player and the client that added it.
pub struct ConnectedPlayer<P> {
    pub cid: ClientId,
    pub player: P,
}

/// One input: the id of the entity that it is for, and the input's bytes.
pub type PackedInput = (Result<NetId, ZeroNetIdError>, Vec<u8>);

/// The players that `cid` added.
pub open spec fn players_of<P>(players: Map<u64, ConnectedPlayer<P>>, cid: ClientId) -> Set<u64> {
    players.dom().filter(|pid: u64| players[pid].cid == cid)
}

/// `p1` and `w1` are the players `p0` and the world `w0` after the player `pid` with `bytes` was
/// added for `cid`, with `joined`.
pub open spec fn player_added<P: RemotePlayer>(
    p0: Map<u64, ConnectedPlayer<P>>,
    w0: hecs::World,
    p1: Map<u64, ConnectedPlayer<P>>,
    w1: hecs::World,
    cid: ClientId,
    pid: PlayerId,
    bytes: Seq<u8>,
    joined: bool,
) -> bool {
    match P::info_of(bytes) {
        None => p1 == p0 && w1 == w0 && !joined,
        Some(info) => exists|result: Result<P, P::Error>| #[trigger]
            P::accepted(info, pid, w0, w1, result) && match result {
                Ok(player) => p1 == p0.insert(pid.0, ConnectedPlayer { cid, player }) && joined,
                Err(_) => p1 == p0 && !joined,
            },
    }
}

/// `message` tells a client that its player joined as `pid`.
pub open spec fn joined<U>(message: ServerMessage<Connected, PlayerId, U>, pid: u64) -> bool {
    message == (ServerMessage::<Connected, PlayerId, U>::PlayerJoined { info: PlayerId(pid) })
}

/// `w1` is `w0` after all players of `players` that `cid` added left, in some order.
pub open spec fn client_left<P: RemotePlayer>(
    players: Map<u64, ConnectedPlayer<P>>,
    cid: ClientId,
    w0: hecs::World,
    w1: hecs::World,
) -> bool {
    exists|order: Seq<u64>|
        {
            &&& order.no_duplicates()
            &&& order.to_set() == players_of(players, cid)
            &&& #[trigger] players_left(players, order, w0, w1)
        }
}

/// `p1` and `w1` are the players `p0` and the world `w0` after one input was taken. An input of no
/// player, for no entity that `m` knows, or that cannot be read is passed over.
pub open spec fn input_applied<P: RemotePlayer>(
    m: Map<u64, u64>,
    p0: Map<u64, ConnectedPlayer<P>>,
    w0: hecs::World,
    p1: Map<u64, ConnectedPlayer<P>>,
    w1: hecs::World,
    input: (PlayerId, PackedInput),
) -> bool {
    let pid = input.0.0;
    match (input.1.0, P::input_of(input.1.1@)) {
        (Ok(nid), Some(data)) if p0.contains_key(pid) && m.contains_key(nid.0) => {
            &&& p1 == p0.insert(pid, p1[pid])
            &&& p1[pid].cid == p0[pid].cid
            &&& P::applied(p0[pid].player, p1[pid].player, m[nid.0], w0, w1, data)
        },
        _ => p1 == p0 && w1 == w0,
    }
}

/// `p1` and `w1` are the players `p0` and the world `w0` after `inputs` were taken in order.
pub open spec fn inputs_applied<P: RemotePlayer>(
    m: Map<u64, u64>,
    p0: Map<u64, ConnectedPlayer<P>>,
    w0: hecs::World,
    p1: Map<u64, ConnectedPlayer<P>>,
    w1: hecs::World,
    inputs: Seq<(PlayerId, PackedInput)>,
) -> bool
    decreases inputs.len(),
{
    if inputs.len() == 0 {
        p1 == p0 && w1 == w0
    } else {
        exists|p: Map<u64, ConnectedPlayer<P>>, w: hecs::World|
            {
                &&& inputs_applied(m, p0, w0, p, w, inputs.drop_last())
                &&& #[trigger] input_applied(m, p, w, p1, w1, inputs.last())
            }
    }
}

/// `w1` is `w0` after those of `players` whose ids are `order` left, in that order.
pub open spec fn players_left<P: RemotePlayer>(
    players: Map<u64, ConnectedPlayer<P>>,
    order: Seq<u64>,
    w0: hecs::World,
    w1: hecs::World,
) -> bool
    decreases order.len(),
{
    if order.len() == 0 {
        w1 == w0
    } else {
        exists|w: hecs::World|
            {
                &&& players_left(players, order.drop_last(), w0, w)
                &&& #[trigger] players[order.last()].player.left(w, w1)
            }
    }
}

/// How far a round of a run has got, in which each client has its turn.
#[derive(Debug)]
pub struct Round {
    next: usize,
    arrived: bool,
}

impl Round {
    /// The place of the client whose turn is next.
    pub closed spec fn next(self) -> usize {
        self.next
    }

    /// Whether anything arrived in this round.
    pub closed spec fn arrived(self) -> bool {
        self.arrived
    }
}

/// Authoritative server system.
pub struct ServerSystem<C, L, P: RemotePlayer, R: Replicator> {
    session: ServerSession<C, L>,
    players: HashMap<u64, ConnectedPlayer<P>>,
    id_gen: IdGen,
    mapper: EntityMapper,
    replicas: Replicas<(R, PlayerIdDescriptor)>,
}

impl ServerSystem<(), (), DummyRemotePlayer, ()> {
    /// Returns builder to configure new [`ServerSystem`].
    pub fn builder() -> (builder: ServerBuilder<NoRemotePlayerType, ()>)
        ensures
            builder.ids().len() == 0,
    {
        ServerBuilder::new()
    }
}

impl<C, L, P: RemotePlayer, R: Replicator> ServerSystem<C, L, P, R> {
    /// The session with the clients.
    pub closed spec fn link(self) -> ServerSession<C, L> {
        self.session
    }

    /// The players, by their ids.
    pub closed spec fn players(self) -> Map<u64, ConnectedPlayer<P>> {
        self.players@
    }

    /// Where ids come from.
    pub closed spec fn id_gen(self) -> IdGen {
        self.id_gen
    }

    /// The entities by their ids.
    pub closed spec fn mapper(self) -> EntityMapper {
        self.mapper
    }

    /// The entities that are replicated.
    pub closed spec fn replicas(self) -> Replicas<(R, PlayerIdDescriptor)> {
        self.replicas
    }

    /// Every id in use was handed out, no two entities share one, and there is a slot for each
    /// descriptor.
    pub open spec fn wf(self) -> bool {
        &&& self.link().wf()
        &&& self.replicas().wf(self.mapper(), self.id_gen())
        &&& forall|pid: u64| #[trigger]
            self.players().contains_key(pid) ==> 0 < pid < self.id_gen().next()
        &&& R::count() < mask::MASK_SLOTS
    }

    /// All but the session with the clients is as in `other`.
    pub open spec fn same_but_link(self, other: Self) -> bool {
        &&& self.players() == other.players()
        &&& self.id_gen() == other.id_gen()
        &&& self.mapper() == other.mapper()
        &&& self.replicas() == other.replicas()
    }

    /// All but the players is as in `other`.
    pub open spec fn same_but_players(self, other: Self) -> bool {
        &&& self.link() == other.link()
        &&& self.id_gen() == other.id_gen()
        &&& self.mapper() == other.mapper()
        &&& self.replicas() == other.replicas()
    }

    /// `s1` and `w1` are the server `s0` and the world `w0` after what the event of `cid` asks for
    /// was done, and `message` is what is sent to the client.
    pub open spec fn handled<U>(
        s0: Self,
        w0: hecs::World,
        s1: Self,
        w1: hecs::World,
        cid: ClientId,
        event: Event<Vec<u8>, PackedInput>,
        message: Option<ServerMessage<Connected, PlayerId, U>>,
    ) -> bool {
        match event {
            Event::ClientConnect(event) => {
                &&& s1.same_but_link(s0)
                &&& session::connected(s0.link(), s1.link(), event, message)
                &&& w1 == w0
            },
            Event::AddPlayer(event) => {
                &&& s1.link() == s0.link()
                &&& s1.mapper() == s0.mapper()
                &&& s1.replicas() == s0.replicas()
                &&& s1.id_gen().next() == s0.id_gen().next() + 1
                &&& player_added(
                    s0.players(),
                    w0,
                    s1.players(),
                    w1,
                    cid,
                    PlayerId(s0.id_gen().next()),
                    event.description()@,
                    message is Some,
                )
                &&& message matches Some(message) ==> joined(
                    message,
                    s0.id_gen().next(),
                )
            },
            Event::Inputs(event) => {
                &&& s1.same_but_players(s0)
                &&& inputs_applied(
                    s0.mapper()@,
                    s0.players(),
                    w0,
                    s1.players(),
                    w1,
                    session::of_players(event.sent()),
                )
                &&& message is None
            },
            Event::Disconnected => {
                &&& s1.same_but_players(s0)
                &&& s1.players() == s0.players().remove_keys(
                    players_of(s0.players(), cid),
                )
                &&& client_left(s0.players(), cid, w0, w1)
                &&& message is None
            },
        }
    }

    /// `s1` is the server `s0` after its session took what came through the channel of the client
    /// at `i`, and `event` is what comes of it.
    pub open spec fn taken<E>(
        s0: Self,
        s1: Self,
        i: int,
        received: Result<Option<ClientMessage<InputStep, Vec<u8>, PackedInput>>, E>,
        event: Option<Event<Vec<u8>, PackedInput>>,
    ) -> bool {
        let client = s0.link().clients()[i];
        &&& s1.same_but_link(s0)
        &&& s1.link().same_but_clients(s0.link())
        &&& s1.link().clients() == s0.link().clients().update(i, session::after(client, received))
        &&& session::reported(client, s0.link().step(), received, event)
    }

    /// A server without clients, players and entities.
    pub fn new(listener: L) -> (system: Self)
        requires
            R::count() < mask::MASK_SLOTS,
        ensures
            system.wf(),
            system.link().source() == listener,
            system.link().step() == 0,
            system.link().clients() == Seq::<session::Client<C>>::empty(),
            system.link().next_client_id() == 1,
            system.players() == Map::<u64, ConnectedPlayer<P>>::empty(),
            system.id_gen().next() == 1,
            system.mapper()@ == Map::<u64, u64>::empty(),
            system.replicas()@.len() == 0,
    {
        ServerSystem {
            session: ServerSession::new(listener),
            players: HashMap::new(),
            id_gen: IdGen::new(),
            mapper: EntityMapper::new(),
            replicas: Replicas::new(),
        }
    }

    /// The session with the clients.
    pub fn session(&mut self) -> (session: &mut ServerSession<C, L>)
        ensures
            *session == old(self).link(),
            final(self).link() == *final(session),
            final(self).same_but_link(*old(self)),
    {
        &mut self.session
    }

    /// A client asks to be connected: it is. Gives what is sent to it.
    pub fn connect<J, U>(&mut self, event: ClientConnectEvent) -> (message: Option<
        ServerMessage<Connected, J, U>,
    >)
        requires
            old(self).wf(),
        ensures
            final(self).wf(),
            final(self).same_but_link(*old(self)),
            session::connected(old(self).link(), final(self).link(), event, message),
    {
        let message = event.accept(&mut self.session);
        assert(self.players() == old(self).players());
        message
    }

    /// A client asks to add a player. Gives what is sent to it; `None` where the player's info
    /// cannot be read or the player is not accepted. The player's id is used up all the same.
    pub fn add_player<U>(
        &mut self,
        cid: ClientId,
        event: AddPlayerEvent<Vec<u8>>,
        world: &mut hecs::World,
    ) -> (message: Option<ServerMessage<Connected, PlayerId, U>>)
        requires
            old(self).wf(),
            old(self).id_gen().next() < u64::MAX,
        ensures
            world::flushable(*old(world)) ==> world::flushable(*final(world)),
            final(self).wf(),
            final(self).link() == old(self).link(),
            final(self).mapper() == old(self).mapper(),
            final(self).replicas() == old(self).replicas(),
            final(self).id_gen().next() == old(self).id_gen().next() + 1,
            player_added(
                old(self).players(),
                *old(world),
                final(self).players(),
                *final(world),
                cid,
                PlayerId(old(self).id_gen().next()),
                event.description()@,
                message is Some,
            ),
            message matches Some(message) ==> joined(message, old(self).id_gen().next()),
    {
        let pid = self.id_gen.gen_pid();
        assert(self.players() == old(self).players());
        assert(self.mapper() == old(self).mapper());
        assert(self.mapper().issued_by(self.id_gen())) by {
            assert forall|nid: u64| #[trigger] self.mapper()@.contains_key(nid) implies 0 < nid
                < self.id_gen().next() by {
                assert(old(self).mapper()@.contains_key(nid));
            }
        }
        let info = match P::decode_info(event.player().as_slice()) {
            Some(info) => info,
            None => {
                return None;
            },
        };
        let result = P::accept(info, pid, world);
        assert(P::accepted(info, pid, *old(world), *world, result));
        match result {
            Ok(player) => {
                self.players.insert(pid.0, ConnectedPlayer { cid, player });
                assert forall|id: u64| #[trigger] self.players().contains_key(id) implies 0 < id
                    < self.id_gen().next() by {
                    assert(id == pid.0 || old(self).players().contains_key(id));
                }
                Some(event.accept(pid))
            },
            Err(_) => None,
        }
    }

    /// Takes one input.
    fn apply_input(&mut self, pid: PlayerId, input: &PackedInput, world: &mut hecs::World)
        requires
            old(self).wf(),
        ensures
            world::flushable(*old(world)) ==> world::flushable(*final(world)),
            final(self).wf(),
            final(self).same_but_players(*old(self)),
            input_applied(
                old(self).mapper()@,
                old(self).players(),
                *old(world),
                final(self).players(),
                *final(world),
                (pid, *input),
            ),
    {
        let ghost before = self.players();
        let nid = match &input.0 {
            Ok(nid) => *nid,
            Err(_) => {
                return ;
            },
        };
        let entity: u64 = match self.mapper.get(nid) {
            Some(entity) => entity,
            None => {
                return ;
            },
        };
        let data = match P::decode_input(input.1.as_slice()) {
            Some(data) => data,
            None => {
                return ;
            },
        };
        if let Some(connected) = self.players.remove(&pid.0) {
            let mut connected = connected;
            connected.player.apply_input(entity, world, data);
            self.players.insert(pid.0, connected);
            assert(self.players() =~= before.insert(pid.0, connected));
        } else {
            assert(self.players() =~= before);
        }
    }

    /// A client sends inputs of players: each is applied.
    pub fn apply_inputs(&mut self, event: InputsEvent<PackedInput>, world: &mut hecs::World)
        requires
            old(self).wf(),
        ensures
            world::flushable(*old(world)) ==> world::flushable(*final(world)),
            final(self).wf(),
            final(self).same_but_players(*old(self)),
            inputs_applied(
                old(self).mapper()@,
                old(self).players(),
                *old(world),
                final(self).players(),
                *final(world),
                session::of_players(event.sent()),
            ),
    {
        let inputs = event.inputs();
        let ghost all = session::of_players(event.sent());
        let ghost named = |input: (PlayerId, &PackedInput)| (input.0, *input.1);
        let ghost m = self.mapper()@;
        let ghost p0 = self.players();
        let ghost w0 = *world;
        assert(all.take(0) =~= Seq::empty());
        for i in 0..inputs.len()
            invariant
                named == (|input: (PlayerId, &PackedInput)| (input.0, *input.1)),
                inputs@.map_values(named) == all,
                world::flushable(w0) ==> world::flushable(*world),
                self.wf(),
                self.same_but_players(*old(self)),
                m == self.mapper()@,
                inputs_applied(
                    m,
                    p0,
                    w0,
                    self.players(),
                    *world,
                    all.take(i as int),
                ),
        {
            let ghost n = i as int;
            let ghost p = self.players();
            let ghost w = *world;
            assert(all.take(n + 1).drop_last() =~= all.take(n));
            let (pid, input) = inputs[i];
            assert(all.take(n + 1).last() == named(inputs@[n]));
            self.apply_input(pid, input, world);
            assert(input_applied(m, p, w, self.players(), *world, all.take(n + 1).last()));
        }
        assert(all.take(all.len() as int) =~= all);
    }

    /// The players that `cid` added, each once.
    fn players_of(&self, cid: ClientId) -> (pids: Vec<u64>)
        ensures
            pids@.no_duplicates(),
            pids@.to_set() == players_of(self.players(), cid),
    {
        let all = keys::keys(&self.players);
        let mut pids: Vec<u64> = Vec::new();
        for i in 0..all.len()
            invariant
                all@.no_duplicates(),
                all@.to_set() == self.players().dom(),
                pids@.no_duplicates(),
                forall|pid: u64| #[trigger]
                    pids@.contains(pid) <==> {
                        &&& all@.take(i as int).contains(pid)
                        &&& players_of(self.players(), cid).contains(pid)
                    },
        {
            let pid: u64 = all[i];
            let ghost taken = all@.take(i as int);
            let ghost before = pids@;
            assert(all@.to_set().contains(pid));
            assert(all@.take(i + 1) =~= taken.push(pid));
            assert(!taken.contains(pid));
            if let Some(connected) = self.players.get(&pid) {
                if connected.cid == cid {
                    assert(!pids@.contains(pid));
                    pids.push(pid);
                }
            }
            assert forall|id: u64| #[trigger] pids@.contains(id) <==> {
                &&& all@.take(i + 1).contains(id)
                &&& players_of(self.players(), cid).contains(id)
            } by {
                keys::push_contains(taken, pid, id);
                keys::push_contains(before, pid, id);
                assert(before.contains(id) <==> taken.contains(id) && players_of(
                    self.players(),
                    cid,
                ).contains(id));
            }
        }
        assert(all@.take(all@.len() as int) =~= all@);
        assert(pids@.to_set() =~= players_of(self.players(), cid)) by {
            assert forall|pid: u64| pids@.to_set().contains(pid) <==> players_of(
                self.players(),
                cid,
            ).contains(pid) by {
                assert(pids@.contains(pid) <==> all@.contains(pid) && players_of(
                    self.players(),
                    cid,
                ).contains(pid));
                if players_of(self.players(), cid).contains(pid) {
                    assert(all@.to_set().contains(pid));
                }
            }
        }
        pids
    }

    /// A client is gone: the players that it added leave, one after the other.
    pub fn disconnect(&mut self, cid: ClientId, world: &mut hecs::World)
        requires
            old(self).wf(),
        ensures
            world::flushable(*old(world)) ==> world::flushable(*final(world)),
            final(self).wf(),
            final(self).same_but_players(*old(self)),
            final(self).players() == old(self).players().remove_keys(
                players_of(old(self).players(), cid),
            ),
            client_left(old(self).players(), cid, *old(world), *final(world)),
    {
        let order = self.players_of(cid);
        let ghost players = self.players();
        let ghost w0 = *world;
        assert(order@.take(0) =~= Seq::empty());
        assert(self.players() =~= players.remove_keys(order@.take(0).to_set()));
        for i in 0..order.len()
            invariant
                world::flushable(w0) ==> world::flushable(*world),
                self.wf(),
                self.same_but_players(*old(self)),
                order@.no_duplicates(),
                order@.to_set() == players_of(players, cid),
                self.players() == players.remove_keys(order@.take(i as int).to_set()),
                players_left(players, order@.take(i as int), w0, *world),
        {
            let pid: u64 = order[i];
            let ghost taken = order@.take(i as int);
            let ghost w = *world;
            assert(order@.take(i + 1) =~= taken.push(pid));
            assert(taken.push(pid).drop_last() =~= taken);
            assert(!taken.contains(pid));
            assert(order@.to_set().contains(pid));
            let removed = self.players.remove(&pid);
            assert(self.players() =~= players.remove_keys(order@.take(i + 1).to_set())) by {
                assert forall|id: u64| order@.take(i + 1).to_set().contains(id)
                    <==> taken.to_set().contains(id) || id == pid by {
                    keys::push_contains(taken, pid, id);
                }
            }
            if let Some(connected) = removed {
                connected.player.disconnected(world);
                assert(players[order@.take(i + 1).last()].player.left(w, *world));
            }
        }
        assert(order@.take(order@.len() as int) =~= order@);
    }

    /// Whether an id is left for another player.
    pub fn has_id(&self) -> (enough: bool)
        ensures
            enough == (self.id_gen().next() < u64::MAX),
    {
        self.id_gen.has(1)
    }

    /// Does what a client's event asks for. Gives what is sent to the client, if anything.
    pub fn handle<U>(
        &mut self,
        cid: ClientId,
        event: Event<Vec<u8>, PackedInput>,
        world: &mut hecs::World,
    ) -> (message: Option<ServerMessage<Connected, PlayerId, U>>)
        requires
            old(self).wf(),
            event is AddPlayer ==> old(self).id_gen().next() < u64::MAX,
        ensures
            world::flushable(*old(world)) ==> world::flushable(*final(world)),
            final(self).wf(),
            Self::handled(*old(self), *old(world), *final(self), *final(world), cid, event, message),
    {
        match event {
            Event::ClientConnect(event) => self.connect(event),
            Event::AddPlayer(event) => self.add_player(cid, event, world),
            Event::Inputs(event) => {
                self.apply_inputs(event, world);
                None
            },
            Event::Disconnected => {
                self.disconnect(cid, world);
                None
            },
        }
    }

    /// Begins the first round of a run: drops the clients that are disconnected.
    pub fn first_round(&mut self) -> (round: Round)
        requires
            old(self).wf(),
        ensures
            final(self).wf(),
            final(self).same_but_link(*old(self)),
            final(self).link().same_but_clients(old(self).link()),
            final(self).link().clients() == session::remaining(old(self).link().clients()),
            forall|k: int|
                0 <= k < final(self).link().clients().len() ==> !((
                #[trigger] final(self).link().clients()[k]).state is Disconnected),
            round.next() == 0,
            !round.arrived(),
    {
        self.session.drop_disconnected();
        proof {
            session::disconnected_are_dropped(old(self).link().clients());
            let clients = self.link().clients();
            assert forall|k: int| 0 <= k < clients.len() implies !((#[trigger] clients[k]).state is
                Disconnected) by {
                assert(clients.contains(clients[k]));
            }
        }
        assert(self.players() == old(self).players());
        Round { next: 0, arrived: false }
    }

    /// Takes what came through the channel of the client at `i`, whose turn it is in `round`, and
    /// does what it asks for. Gives what is sent to the client, if anything.
    pub fn receive<U, E>(
        &mut self,
        round: &mut Round,
        i: usize,
        received: Result<Option<ClientMessage<InputStep, Vec<u8>, PackedInput>>, E>,
        world: &mut hecs::World,
    ) -> (reply: Option<ServerMessage<Connected, PlayerId, U>>)
        requires
            old(self).wf(),
            old(round).next() == i,
            i < old(self).link().clients().len(),
            !(old(self).link().clients()[i as int].state is Disconnected),
            received matches Ok(Some(ClientMessage::AddPlayer { .. })) ==> old(
                self,
            ).id_gen().next() < u64::MAX,
        ensures
            world::flushable(*old(world)) ==> world::flushable(*final(world)),
            final(self).wf(),
            final(round).next() == i + 1,
            final(round).arrived() == (old(round).arrived() || !(received matches Ok(None))),
            exists|mid: Self, event: Option<Event<Vec<u8>, PackedInput>>| #[trigger]
                Self::taken(*old(self), mid, i as int, received, event) && match event {
                    Some(event) => Self::handled(
                        mid,
                        *old(world),
                        *final(self),
                        *final(world),
                        old(self).link().clients()[i as int].id,
                        event,
                        reply,
                    ),
                    None => {
                        &&& *final(self) == mid
                        &&& *final(world) == *old(world)
                        &&& reply is None
                    },
                },
            final(self).link().same_but_clients(old(self).link()),
            final(self).link().clients().len() == old(self).link().clients().len(),
            forall|k: int|
                0 <= k < old(self).link().clients().len() && k != i
                    ==> #[trigger] final(self).link().clients()[k] == old(self).link().clients()[k],
    {
        let ghost s0 = *self;
        let ghost clients = self.link().clients();
        let total: usize = self.session.len();
        assert(i < total);
        let arrived = match &received {
            Ok(None) => false,
            _ => true,
        };
        round.next = i + 1;
        round.arrived = round.arrived || arrived;
        let event = self.session.receive(i, received);
        let ghost mid = *self;
        assert(self.players() == s0.players());
        assert(mid.same_but_link(s0));
        match event {
            Some((cid, event)) => {
                assert(Self::taken(s0, mid, i as int, received, Some(event)));
                proof {
                    let found = session::position(mid.link().clients(), clients[i as int].id);
                    assert(mid.link().clients()[i as int].id == clients[i as int].id);
                    if let Some(k) = found {
                        assert(mid.link().clients()[k].id == clients[i as int].id);
                        assert(k == i);
                    }
                }
                self.handle(cid, event, world)
            },
            None => {
                assert(Self::taken(s0, mid, i as int, received, None));
                None
            },
        }
    }

    /// Goes on after each client had its turn in `round`: to another round where anything arrived,
    /// without the clients that are disconnected by now; `None` where nothing did, and then all
    /// arrived messages have been processed.
    pub fn next_round(&mut self, round: Round) -> (next: Option<Round>)
        requires
            old(self).wf(),
            round.next() == old(self).link().clients().len(),
        ensures
            final(self).wf(),
            final(self).same_but_link(*old(self)),
            final(self).link().same_but_clients(old(self).link()),
            final(self).link().clients() == (if round.arrived() {
                session::remaining(old(self).link().clients())
            } else {
                old(self).link().clients()
            }),
            next is Some <==> round.arrived(),
            next matches Some(next) ==> {
                &&& next.next() == 0
                &&& !next.arrived()
                &&& forall|k: int|
                    0 <= k < final(self).link().clients().len() ==> !((
                    #[trigger] final(self).link().clients()[k]).state is Disconnected)
            },
    {
        if round.arrived {
            Some(self.first_round())
        } else {
            None
        }
    }

    /// Whether a step can be finished: ids are left for every entity that there can be, and no
    /// client claims to have seen what has not been.
    pub fn ready(&self) -> (ready: bool)
        ensures
            ready == {
                &&& self.id_gen().next() <= u64::MAX - world::MAX_ENTITIES
                &&& self.link().in_time()
                &&& self.link().step() < u64::MAX
            },
    {
        self.id_gen.has(world::MAX_ENTITIES) && self.session.is_in_time()
            && self.session.current_step() < u64::MAX
    }

    /// Begins to replicate the entities that are new, and makes an update of the world for each
    /// connected client. Gives them with the places of the clients.
    pub fn updates(&mut self, world: &mut hecs::World) -> (updates: Vec<
        (usize, ServerMessage<Connected, PlayerId, WorldReplicaPack>),
    >)
        requires
            world::flushable(*old(world)),
            old(self).wf(),
            old(self).id_gen().next() <= u64::MAX - world::MAX_ENTITIES,
            old(self).link().in_time(),
        ensures
            world::flushable(*final(world)),
            final(self).wf(),
            final(self).link() == old(self).link(),
            final(self).players() == old(self).players(),
            replicas::entities_added::<(R, PlayerIdDescriptor)>(
                old(self).replicas()@,
                old(self).id_gen(),
                old(self).mapper()@,
                *old(world),
                final(self).replicas()@,
                final(self).id_gen(),
                final(self).mapper()@,
                *final(world),
            ),
            updates@.len() == session::due(old(self).link().clients(), old(self).link().step()).len(),
            forall|k: int|
                0 <= k < updates@.len() ==> {
                    let due = session::due(
                        old(self).link().clients(),
                        old(self).link().step(),
                    )[k];
                    &&& (#[trigger] updates@[k]).0 == due.0
                    &&& updates@[k].1 is Updates
                    &&& updates@[k].1->server_step == old(self).link().step()
                    &&& replicas::packed::<(R, PlayerIdDescriptor)>(
                        updates@[k].1->updates,
                        final(self).replicas()@,
                        final(self).mapper(),
                        due.1 as u64,
                        *final(world),
                    )
                },
    {
        self.replicas.init_entities(world, &mut self.id_gen, &mut self.mapper);
        assert forall|pid: u64| #[trigger] self.players().contains_key(pid) implies 0 < pid
            < self.id_gen().next() by {
            assert(old(self).players().contains_key(pid));
        }
        let backs = self.session.due();
        let ghost due = session::due(self.link().clients(), self.link().step());
        let ghost ints = |back: (usize, u64)| (back.0 as int, back.1 as int);
        assert(due == backs@.map_values(ints));
        let ghost w = *world;
        let server_step: u64 = self.session.current_step();
        let mut updates: Vec<(usize, ServerMessage<Connected, PlayerId, WorldReplicaPack>)> =
            Vec::new();
        for k in 0..backs.len()
            invariant
                R::count() < mask::MASK_SLOTS,
                *world == w,
                updates@.len() == k,
                ints == (|back: (usize, u64)| (back.0 as int, back.1 as int)),
                due == backs@.map_values(ints),
                forall|j: int|
                    0 <= j < k ==> {
                        &&& (#[trigger] updates@[j]).0 == due[j].0
                        &&& updates@[j].1 is Updates
                        &&& updates@[j].1->server_step == server_step
                        &&& replicas::packed::<(R, PlayerIdDescriptor)>(
                            updates@[j].1->updates,
                            self.replicas()@,
                            self.mapper(),
                            due[j].1 as u64,
                            w,
                        )
                    },
        {
            let (i, back) = backs[k];
            assert(due[k as int] == ints((i, back)));
            let pack = self.replicas.pack(world, &self.mapper, back);
            updates.push((i, ServerMessage::Updates { server_step, updates: pack }));
        }
        updates
    }

    /// Ends a step after the updates were sent, which failed for the clients at `failed`: notes
    /// the state of each entity, and forgets the ids of those that are gone.
    pub fn finish(&mut self, world: &mut hecs::World, failed: &Vec<usize>)
        requires
            old(self).wf(),
            old(self).link().step() < u64::MAX,
            forall|k: int|
                0 <= k < failed@.len() ==> #[trigger] failed@[k] < old(self).link().clients().len(),
        ensures
            final(self).wf(),
            final(self).players() == old(self).players(),
            final(self).id_gen() == old(self).id_gen(),
            replicas::histories_updated::<(R, PlayerIdDescriptor)>(
                old(self).replicas()@,
                final(self).replicas()@,
                *old(world),
            ),
            final(self).mapper()@ == old(self).mapper()@.remove_keys(
                old(self).mapper().removed(*old(world)),
            ),
            *final(world) == *old(world),
            session::advanced(old(self).link(), final(self).link(), failed@),
    {
        self.replicas.update_history(world);
        self.mapper.clear_removed(world);
        proof {
            let r0 = old(self).replicas()@;
            let kept = replicas::survivors(r0, *old(world));
            replicas::survivors_consistent(r0, old(self).mapper()@, *old(world));
            let r1 = self.replicas()@;
            let m1 = self.mapper()@;
            assert forall|i: int| 0 <= i < r1.len() implies m1.contains_pair(
                (#[trigger] r1[i]).nid.0,
                r1[i].entity,
            ) by {
                assert(old(self).mapper()@.contains_pair(kept[i].nid.0, kept[i].entity));
            }
            assert forall|i: int, j: int| 0 <= i < j < r1.len() implies (#[trigger] r1[i]).nid != (
            #[trigger] r1[j]).nid by {
                assert(kept[i].nid != kept[j].nid);
            }
        }
        self.session.advance(failed);
        assert(self.players() == old(self).players());
    }
}

} // verus!
