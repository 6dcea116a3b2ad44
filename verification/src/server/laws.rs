//! What the operations of a server mean: the laws of players, inputs and updates, stated of what
//! the functions are given and give.

use crate::client;
use crate::client::replicator::{self, ReplicateError};
use crate::client_server::{
    AddPlayerEvent, Client, ClientConnectEvent, ClientId, ClientMessage, Connected, Event, InputStep, InputsEvent,
    PlayerId, ServerMessage, ServerSession,
};
use crate::client_server::laws as sessions;
use crate::client_server::server as session;
use crate::convergence::{self, Mirror, PlayerIdPair};
use crate::nid::{self, NetId, ZeroNetIdError};
use crate::server::{self, PlayerIdDescriptor, Replicator};
use crate::server::builder::{NoRemotePlayerType, ServerBuilder};
use crate::server::replicas::{self, Replica, WorldReplicaPack};
use crate::server::steps;
use crate::server::system::{
    self, ConnectedPlayer, DummyRemotePlayer, PackedInput, RemotePlayer, Round, ServerSystem,
};
use crate::types;
use crate::world;
use std::any::TypeId;
use vstd::prelude::*;

verus! {

/// From `p0` and `w0` to `p1` and `w1`, the bytes of one input reached the entity that it is for,
/// where the player is known, the entity is mapped by `m` and the bytes can be read. Where one of
/// these fails nothing changed.
pub open spec fn input_reaches<P: RemotePlayer>(
    m: Map<u64, u64>,
    p0: Map<u64, ConnectedPlayer<P>>,
    w0: hecs::World,
    p1: Map<u64, ConnectedPlayer<P>>,
    w1: hecs::World,
    player: u64,
    nid: Result<NetId, ZeroNetIdError>,
    bytes: Seq<u8>,
) -> bool {
    let heard = {
        &&& p0.contains_key(player)
        &&& nid is Ok
        &&& m.contains_key(nid->Ok_0.0)
        &&& P::input_of(bytes) is Some
    };
    &&& heard ==> {
        &&& P::applied(
            p0[player].player,
            p1[player].player,
            m[nid->Ok_0.0],
            w0,
            w1,
            P::input_of(bytes)->Some_0,
        )
        &&& forall|other: u64| #[trigger] p1.contains_key(other) <==> p0.contains_key(other)
        &&& p1[player].cid == p0[player].cid
        &&& forall|other: u64|
            other != player && #[trigger] p0.contains_key(other) ==> p1[other] == p0[other]
    }
    &&& !heard ==> p1 == p0 && w1 == w0
}

/// From `p0` and `w0` to `p1` and `w1`, each of `sent` that names a player reached its entity, one
/// after the other, in their order. `ps` and `ws` are what was between.
pub open spec fn inputs_reach<P: RemotePlayer>(
    m: Map<u64, u64>,
    p0: Map<u64, ConnectedPlayer<P>>,
    w0: hecs::World,
    p1: Map<u64, ConnectedPlayer<P>>,
    w1: hecs::World,
    sent: Seq<(Option<PlayerId>, PackedInput)>,
    ps: Seq<Map<u64, ConnectedPlayer<P>>>,
    ws: Seq<hecs::World>,
) -> bool {
    let named = sent.filter(|input: (Option<PlayerId>, PackedInput)| input.0 is Some);
    &&& ps.len() == named.len() + 1
    &&& ws.len() == named.len() + 1
    &&& ps[0] == p0
    &&& ws[0] == w0
    &&& ps.last() == p1
    &&& ws.last() == w1
    &&& forall|k: int|
        0 <= k < named.len() ==> input_reaches(
            m,
            ps[k],
            ws[k],
            ps[k + 1],
            ws[k + 1],
            (#[trigger] named[k]).0->Some_0.0,
            named[k].1.0,
            named[k].1.1@,
        )
}

/// From `p0` and `w0` to `p1` and `w1`, exactly the players that `cid` added left, each once, in
/// `order`. `ws` are the worlds between. All other players stay as they were.
pub open spec fn players_go<P: RemotePlayer>(
    p0: Map<u64, ConnectedPlayer<P>>,
    w0: hecs::World,
    p1: Map<u64, ConnectedPlayer<P>>,
    w1: hecs::World,
    cid: ClientId,
    order: Seq<u64>,
    ws: Seq<hecs::World>,
) -> bool {
    &&& order.no_duplicates()
    &&& forall|pid: u64| #[trigger]
        order.contains(pid) <==> p0.contains_key(pid) && p0[pid].cid == cid
    &&& forall|pid: u64| #[trigger]
        p1.contains_key(pid) <==> p0.contains_key(pid) && p0[pid].cid != cid
    &&& forall|pid: u64| #[trigger] p1.contains_key(pid) ==> p1[pid] == p0[pid]
    &&& ws.len() == order.len() + 1
    &&& ws[0] == w0
    &&& ws.last() == w1
    &&& forall|k: int|
        0 <= k < order.len() ==> p0[#[trigger] order[k]].player.left(ws[k], ws[k + 1])
}

/// From `p0` and `w0` to `p1` and `w1`, a player was added for `cid` under `pid` with the info that
/// `bytes` hold. `reply` is what the client is told: that the player joined, exactly where the info
/// could be read and the player was accepted; otherwise no player is added.
pub open spec fn player_joins<P: RemotePlayer, U>(
    p0: Map<u64, ConnectedPlayer<P>>,
    w0: hecs::World,
    p1: Map<u64, ConnectedPlayer<P>>,
    w1: hecs::World,
    cid: ClientId,
    pid: u64,
    bytes: Seq<u8>,
    reply: Option<ServerMessage<Connected, PlayerId, U>>,
) -> bool {
    &&& P::info_of(bytes) is None ==> p1 == p0 && w1 == w0 && reply is None
    &&& P::info_of(bytes) is Some ==> exists|result: Result<P, P::Error>|
        {
            &&& #[trigger] P::accepted(
                P::info_of(bytes)->Some_0,
                PlayerId(pid),
                w0,
                w1,
                result,
            )
            &&& result is Ok <==> reply is Some
            &&& result matches Ok(player) ==> {
                &&& p1.contains_key(pid)
                &&& p1[pid].cid == cid
                &&& p1[pid].player == player
                &&& forall|other: u64|
                    other != pid ==> (#[trigger] p1.contains_key(other) <==> p0.contains_key(other))
                &&& forall|other: u64|
                    other != pid && #[trigger] p0.contains_key(other) ==> p1[other] == p0[other]
            }
            &&& result is Err ==> p1 == p0
        }
    &&& reply matches Some(message) ==> (message matches ServerMessage::PlayerJoined { info }
        && info == PlayerId(pid))
}

proof fn lemma_inputs_reach<P: RemotePlayer>(
    m: Map<u64, u64>,
    p0: Map<u64, ConnectedPlayer<P>>,
    w0: hecs::World,
    p1: Map<u64, ConnectedPlayer<P>>,
    w1: hecs::World,
    inputs: Seq<(PlayerId, PackedInput)>,
) -> (between: (Seq<Map<u64, ConnectedPlayer<P>>>, Seq<hecs::World>))
    requires
        system::inputs_applied(m, p0, w0, p1, w1, inputs),
    ensures
        between.0.len() == inputs.len() + 1,
        between.1.len() == inputs.len() + 1,
        between.0[0] == p0,
        between.1[0] == w0,
        between.0.last() == p1,
        between.1.last() == w1,
        forall|k: int|
            0 <= k < inputs.len() ==> input_reaches(
                m,
                between.0[k],
                between.1[k],
                between.0[k + 1],
                between.1[k + 1],
                (#[trigger] inputs[k]).0.0,
                inputs[k].1.0,
                inputs[k].1.1@,
            ),
    decreases inputs.len(),
{
    if inputs.len() == 0 {
        (seq![p0], seq![w0])
    } else {
        let rest = inputs.drop_last();
        let last = inputs.last();
        let (p, w) = choose|p: Map<u64, ConnectedPlayer<P>>, w: hecs::World|
            {
                &&& system::inputs_applied(m, p0, w0, p, w, rest)
                &&& #[trigger] system::input_applied(m, p, w, p1, w1, last)
            };
        let (ps, ws) = lemma_inputs_reach(m, p0, w0, p, w, rest);
        let between = (ps.push(p1), ws.push(w1));
        assert(input_reaches(m, p, w, p1, w1, last.0.0, last.1.0, last.1.1@));
        assert forall|k: int| 0 <= k < inputs.len() implies input_reaches(
            m,
            between.0[k],
            between.1[k],
            between.0[k + 1],
            between.1[k + 1],
            (#[trigger] inputs[k]).0.0,
            inputs[k].1.0,
            inputs[k].1.1@,
        ) by {
            if k < rest.len() {
                assert(rest[k] == inputs[k]);
            }
        }
        between
    }
}

proof fn lemma_sent_reach<P: RemotePlayer>(
    m: Map<u64, u64>,
    p0: Map<u64, ConnectedPlayer<P>>,
    w0: hecs::World,
    p1: Map<u64, ConnectedPlayer<P>>,
    w1: hecs::World,
    sent: Seq<(Option<PlayerId>, PackedInput)>,
)
    requires
        system::inputs_applied(m, p0, w0, p1, w1, session::of_players(sent)),
    ensures
        exists|ps: Seq<Map<u64, ConnectedPlayer<P>>>, ws: Seq<hecs::World>| #[trigger]
            inputs_reach(m, p0, w0, p1, w1, sent, ps, ws),
{
    let inputs = session::of_players(sent);
    let named = sent.filter(|input: (Option<PlayerId>, PackedInput)| input.0 is Some);
    let (ps, ws) = lemma_inputs_reach(m, p0, w0, p1, w1, inputs);
    sessions::of_players_are_named(sent);
    assert forall|k: int| 0 <= k < named.len() implies input_reaches(
        m,
        ps[k],
        ws[k],
        ps[k + 1],
        ws[k + 1],
        (#[trigger] named[k]).0->Some_0.0,
        named[k].1.0,
        named[k].1.1@,
    ) by {
        assert(named[k].0 == Some(inputs[k].0) && named[k].1 == inputs[k].1);
    }
    assert(inputs_reach(m, p0, w0, p1, w1, sent, ps, ws));
}

proof fn lemma_left<P: RemotePlayer>(
    players: Map<u64, ConnectedPlayer<P>>,
    order: Seq<u64>,
    w0: hecs::World,
    w1: hecs::World,
) -> (ws: Seq<hecs::World>)
    requires
        system::players_left(players, order, w0, w1),
    ensures
        ws.len() == order.len() + 1,
        ws[0] == w0,
        ws.last() == w1,
        forall|k: int|
            0 <= k < order.len() ==> players[#[trigger] order[k]].player.left(ws[k], ws[k + 1]),
    decreases order.len(),
{
    if order.len() == 0 {
        seq![w0]
    } else {
        let rest = order.drop_last();
        let w = choose|w: hecs::World|
            {
                &&& system::players_left(players, rest, w0, w)
                &&& #[trigger] players[order.last()].player.left(w, w1)
            };
        let before = lemma_left(players, rest, w0, w);
        let ws = before.push(w1);
        assert forall|k: int| 0 <= k < order.len() implies players[
            #[trigger] order[k]
        ].player.left(ws[k], ws[k + 1]) by {
            if k < rest.len() {
                assert(rest[k] == order[k]);
            }
        }
        ws
    }
}

proof fn lemma_players_go<P: RemotePlayer>(
    p0: Map<u64, ConnectedPlayer<P>>,
    w0: hecs::World,
    p1: Map<u64, ConnectedPlayer<P>>,
    w1: hecs::World,
    cid: ClientId,
)
    requires
        p1 == p0.remove_keys(system::players_of(p0, cid)),
        system::client_left(p0, cid, w0, w1),
    ensures
        exists|order: Seq<u64>, ws: Seq<hecs::World>| #[trigger]
            players_go(p0, w0, p1, w1, cid, order, ws),
{
    let order = choose|order: Seq<u64>|
        {
            &&& order.no_duplicates()
            &&& order.to_set() == system::players_of(p0, cid)
            &&& #[trigger] system::players_left(p0, order, w0, w1)
        };
    let ws = lemma_left(p0, order, w0, w1);
    assert forall|pid: u64| #[trigger] order.contains(pid) <==> p0.contains_key(pid) && p0[pid].cid
        == cid by {
        assert(order.to_set().contains(pid) <==> order.contains(pid));
    }
    assert(players_go(p0, w0, p1, w1, cid, order, ws));
}

proof fn lemma_player_joins<P: RemotePlayer, U>(
    p0: Map<u64, ConnectedPlayer<P>>,
    w0: hecs::World,
    p1: Map<u64, ConnectedPlayer<P>>,
    w1: hecs::World,
    cid: ClientId,
    pid: u64,
    bytes: Seq<u8>,
    reply: Option<ServerMessage<Connected, PlayerId, U>>,
)
    requires
        system::player_added(p0, w0, p1, w1, cid, PlayerId(pid), bytes, reply is Some),
        reply matches Some(message) ==> system::joined(message, pid),
    ensures
        player_joins(p0, w0, p1, w1, cid, pid, bytes, reply),
{
    if let Some(info) = P::info_of(bytes) {
        let result = choose|result: Result<P, P::Error>| #[trigger]
            P::accepted(info, PlayerId(pid), w0, w1, result) && match result {
                Ok(player) => p1 == p0.insert(pid, ConnectedPlayer { cid, player })
                    && reply is Some,
                Err(_) => p1 == p0 && reply is None,
            };
        assert(P::accepted(P::info_of(bytes)->Some_0, PlayerId(pid), w0, w1, result));
    }
}

/// Every input whose player is known, whose entity is mapped, and whose bytes can be read, however
/// many they are, is applied to that entity; an input changes nothing only where one of these
/// fails. Inputs of one message are applied in the order in which they were sent.
pub proof fn inputs_reach_their_entities<C, L, P: RemotePlayer, R: Replicator>(
    server: &mut ServerSystem<C, L, P, R>,
    event: InputsEvent<PackedInput>,
    world: &mut hecs::World,
)
    requires
        call_ensures(ServerSystem::<C, L, P, R>::apply_inputs, (server, event, world), ()),
    ensures
        exists|ps: Seq<Map<u64, ConnectedPlayer<P>>>, ws: Seq<hecs::World>| #[trigger]
            inputs_reach(
                old(server).mapper()@,
                old(server).players(),
                *old(world),
                final(server).players(),
                *final(world),
                event.sent(),
                ps,
                ws,
            ),
        final(server).link() == old(server).link(),
        final(server).id_gen() == old(server).id_gen(),
        final(server).mapper() == old(server).mapper(),
        final(server).replicas() == old(server).replicas(),
{
    lemma_sent_reach(
        old(server).mapper()@,
        old(server).players(),
        *old(world),
        final(server).players(),
        *final(world),
        event.sent(),
    );
}

/// An event with one input of a player, who is known, for an entity that is mapped, with bytes that
/// can be read, applies what was read to that entity.
pub proof fn an_input_reaches_its_entity<C, L, P: RemotePlayer, R: Replicator>(
    server: &mut ServerSystem<C, L, P, R>,
    event: InputsEvent<PackedInput>,
    world: &mut hecs::World,
    pid: PlayerId,
    nid: NetId,
    bytes: Vec<u8>,
)
    requires
        call_ensures(ServerSystem::<C, L, P, R>::apply_inputs, (server, event, world), ()),
        event.sent() == seq![(Some(pid), (Ok::<NetId, ZeroNetIdError>(nid), bytes))],
        old(server).players().contains_key(pid.0),
        old(server).mapper()@.contains_key(nid.0),
        P::input_of(bytes@) is Some,
    ensures
        P::applied(
            old(server).players()[pid.0].player,
            final(server).players()[pid.0].player,
            old(server).mapper()@[nid.0],
            *old(world),
            *final(world),
            P::input_of(bytes@)->Some_0,
        ),
{
    inputs_reach_their_entities(server, event, world);
    let (ps, ws) = choose|ps: Seq<Map<u64, ConnectedPlayer<P>>>, ws: Seq<hecs::World>| #[trigger]
        inputs_reach(
            old(server).mapper()@,
            old(server).players(),
            *old(world),
            final(server).players(),
            *final(world),
            event.sent(),
            ps,
            ws,
        );
    let named = event.sent().filter(|input: (Option<PlayerId>, PackedInput)| input.0 is Some);
    reveal_with_fuel(Seq::filter, 3);
    assert(event.sent().drop_last() =~= Seq::empty());
    assert(named =~= event.sent());
    assert(named[0] == event.sent()[0]);
    assert(ps[1] == ps.last() && ws[1] == ws.last());
}

/// A player is added exactly where its info can be read and the player is accepted: for the client
/// that asked, under the next id, which is used up all the same. The client is told that id.
pub proof fn players_join<C, L, P: RemotePlayer, R: Replicator, U>(
    server: &mut ServerSystem<C, L, P, R>,
    cid: ClientId,
    event: AddPlayerEvent<Vec<u8>>,
    world: &mut hecs::World,
    reply: Option<ServerMessage<Connected, PlayerId, U>>,
)
    requires
        call_ensures(
            ServerSystem::<C, L, P, R>::add_player::<U>,
            (server, cid, event, world),
            reply,
        ),
    ensures
        player_joins(
            old(server).players(),
            *old(world),
            final(server).players(),
            *final(world),
            cid,
            old(server).id_gen().next(),
            event.description()@,
            reply,
        ),
        final(server).id_gen().next() == old(server).id_gen().next() + 1,
        final(server).link() == old(server).link(),
        final(server).mapper() == old(server).mapper(),
        final(server).replicas() == old(server).replicas(),
{
    lemma_player_joins(
        old(server).players(),
        *old(world),
        final(server).players(),
        *final(world),
        cid,
        old(server).id_gen().next(),
        event.description()@,
        reply,
    );
}

/// With a client exactly the players go that it added, and each is told so once.
pub proof fn players_go_with_their_client<C, L, P: RemotePlayer, R: Replicator>(
    server: &mut ServerSystem<C, L, P, R>,
    cid: ClientId,
    world: &mut hecs::World,
)
    requires
        call_ensures(ServerSystem::<C, L, P, R>::disconnect, (server, cid, world), ()),
    ensures
        exists|order: Seq<u64>, ws: Seq<hecs::World>| #[trigger]
            players_go(
                old(server).players(),
                *old(world),
                final(server).players(),
                *final(world),
                cid,
                order,
                ws,
            ),
        final(server).link() == old(server).link(),
        final(server).id_gen() == old(server).id_gen(),
        final(server).mapper() == old(server).mapper(),
        final(server).replicas() == old(server).replicas(),
{
    lemma_players_go(
        old(server).players(),
        *old(world),
        final(server).players(),
        *final(world),
        cid,
    );
}

/// What a server does with what came from a client, from the message to the answer: nothing where
/// nothing came; a client that waits is connected and told the step; a connected client's player is
/// added, and its inputs are applied unless they are older than those before; whoever is not heard
/// loses its players. A round knows whose turn is next, and whether anything came at all.
pub proof fn messages_are_answered<C, L, P: RemotePlayer, R: Replicator, U, E>(
    server: &mut ServerSystem<C, L, P, R>,
    round: &mut Round,
    i: usize,
    received: Result<Option<ClientMessage<InputStep, Vec<u8>, PackedInput>>, E>,
    world: &mut hecs::World,
    reply: Option<ServerMessage<Connected, PlayerId, U>>,
)
    requires
        old(server).wf(),
        i < old(server).link().clients().len(),
        call_ensures(
            ServerSystem::<C, L, P, R>::receive::<U, E>,
            (server, round, i, received, world),
            reply,
        ),
    ensures
        final(round).next() == i + 1,
        final(round).arrived() <==> old(round).arrived() || !(received matches Ok(None)),
        final(server).mapper() == old(server).mapper(),
        final(server).replicas() == old(server).replicas(),
        final(server).link().source() == old(server).link().source(),
        final(server).link().step() == old(server).link().step(),
        final(server).link().next_client_id() == old(server).link().next_client_id(),
        final(server).link().clients().len() == old(server).link().clients().len(),
        forall|k: int|
            0 <= k < old(server).link().clients().len() && k != i
                ==> #[trigger] final(server).link().clients()[k]
                == old(server).link().clients()[k],
        ({
            let c0 = old(server).link().clients()[i as int];
            let c1 = final(server).link().clients()[i as int];
            let p0 = old(server).players();
            let p1 = final(server).players();
            let connects = received matches Ok(Some(ClientMessage::Connect { .. }))
                && c0.state is Pending;
            let adds = received matches Ok(Some(ClientMessage::AddPlayer { .. }))
                && c0.state is Connected;
            let sends = received matches Ok(Some(ClientMessage::Inputs { .. }))
                && c0.state is Connected;
            &&& c1.id == c0.id
            &&& c1.channel == c0.channel
            &&& !sends ==> c1.next_update_step == c0.next_update_step && c1.last_input_step
                == c0.last_input_step
            &&& !adds ==> final(server).id_gen() == old(server).id_gen()
            &&& received matches Ok(None) ==> {
                &&& p1 == p0
                &&& *final(world) == *old(world)
                &&& reply is None
                &&& c1 == c0
            }
            &&& connects ==> {
                &&& c1.state is Connected
                &&& p1 == p0
                &&& *final(world) == *old(world)
                &&& reply matches Some(ServerMessage::Connected(hello))
                    && hello.step == old(server).link().step()
            }
            &&& received matches Ok(Some(ClientMessage::AddPlayer { player })) ==> (adds ==> {
                &&& c1 == c0
                &&& final(server).id_gen().next() == old(server).id_gen().next() + 1
                &&& player_joins(
                    p0,
                    *old(world),
                    p1,
                    *final(world),
                    c0.id,
                    old(server).id_gen().next(),
                    player@,
                    reply,
                )
            })
            &&& received matches Ok(Some(ClientMessage::Inputs { at, inputs })) ==> (sends ==> {
                &&& c1.state is Connected
                &&& c1.next_update_step == at.next_update_step
                &&& reply is None
                &&& at.step < c0.last_input_step ==> p1 == p0 && *final(world) == *old(world)
                &&& at.step >= c0.last_input_step ==> exists|
                    ps: Seq<Map<u64, ConnectedPlayer<P>>>,
                    ws: Seq<hecs::World>,
                | #[trigger]
                    inputs_reach(
                        old(server).mapper()@,
                        p0,
                        *old(world),
                        p1,
                        *final(world),
                        inputs@,
                        ps,
                        ws,
                    )
            })
            &&& !(received matches Ok(None)) && !connects && !adds && !sends ==> {
                &&& reply is None
                &&& exists|order: Seq<u64>, ws: Seq<hecs::World>| #[trigger]
                    players_go(p0, *old(world), p1, *final(world), c0.id, order, ws)
            }
            &&& received is Err ==> c1.state is Disconnected
        }),
{
    let c0 = old(server).link().clients()[i as int];
    let p0 = old(server).players();
    let p1 = final(server).players();
    let (mid, event) = choose|
        mid: ServerSystem<C, L, P, R>,
        event: Option<Event<Vec<u8>, PackedInput>>,
    | #[trigger]
        ServerSystem::<C, L, P, R>::taken(*old(server), mid, i as int, received, event)
            && match event {
            Some(event) => ServerSystem::<C, L, P, R>::handled(
                mid,
                *old(world),
                *final(server),
                *final(world),
                c0.id,
                event,
                reply,
            ),
            None => {
                &&& *final(server) == mid
                &&& *final(world) == *old(world)
                &&& reply is None
            },
        };
    let clients = mid.link().clients();
    assert(clients[i as int].id == c0.id);
    match event {
        None => {},
        Some(Event::ClientConnect(connect)) => {
            let found = session::position(clients, connect.asker());
            assert(clients[i as int].id == connect.asker());
            assert(found is Some);
            let k = found->Some_0;
            assert(clients[k].id == connect.asker());
            assert forall|j: int| 0 <= j < clients.len() implies (#[trigger] clients[j]).id
                == old(server).link().clients()[j].id by {
            }
            assert(k == i);
        },
        Some(Event::AddPlayer(add)) => {
            lemma_player_joins(
                p0,
                *old(world),
                p1,
                *final(world),
                c0.id,
                old(server).id_gen().next(),
                add.description()@,
                reply,
            );
        },
        Some(Event::Inputs(taken)) => {
            lemma_sent_reach(
                old(server).mapper()@,
                p0,
                *old(world),
                p1,
                *final(world),
                taken.sent(),
            );
        },
        Some(Event::Disconnected) => {
            lemma_players_go(p0, *old(world), p1, *final(world), c0.id);
        },
    }
}

/// A run goes on for another round exactly where anything arrived in the last. Clients that are
/// disconnected are gone before each round, and no others. All else stays.
pub proof fn rounds_end_when_nothing_arrives<C, L, P: RemotePlayer, R: Replicator>(
    server: &mut ServerSystem<C, L, P, R>,
    round: Round,
    next: Option<Round>,
)
    requires
        call_ensures(ServerSystem::<C, L, P, R>::next_round, (server, round), next),
    ensures
        next is Some <==> round.arrived(),
        next matches Some(next) ==> next.next() == 0 && !next.arrived(),
        final(server).players() == old(server).players(),
        final(server).id_gen() == old(server).id_gen(),
        final(server).mapper() == old(server).mapper(),
        final(server).replicas() == old(server).replicas(),
        final(server).link().step() == old(server).link().step(),
        final(server).link().source() == old(server).link().source(),
        final(server).link().next_client_id() == old(server).link().next_client_id(),
        !round.arrived() ==> final(server).link().clients() == old(server).link().clients(),
        round.arrived() ==> forall|client: Client<C>| #[trigger]
            final(server).link().clients().contains(client) <==> {
                &&& old(server).link().clients().contains(client)
                &&& !(client.state is Disconnected)
            },
{
    session::disconnected_are_dropped(old(server).link().clients());
}

/// The first round of a run begins with the clients that are not disconnected, and no others.
pub proof fn runs_begin_with_the_first_client<C, L, P: RemotePlayer, R: Replicator>(
    server: &mut ServerSystem<C, L, P, R>,
    round: Round,
)
    requires
        call_ensures(ServerSystem::<C, L, P, R>::first_round, (server,), round),
    ensures
        round.next() == 0,
        !round.arrived(),
        final(server).players() == old(server).players(),
        final(server).id_gen() == old(server).id_gen(),
        final(server).mapper() == old(server).mapper(),
        final(server).replicas() == old(server).replicas(),
        final(server).link().step() == old(server).link().step(),
        final(server).link().source() == old(server).link().source(),
        final(server).link().next_client_id() == old(server).link().next_client_id(),
        forall|client: Client<C>| #[trigger]
            final(server).link().clients().contains(client) <==> {
                &&& old(server).link().clients().contains(client)
                &&& !(client.state is Disconnected)
            },
{
    session::disconnected_are_dropped(old(server).link().clients());
}

/// Each connected client is made exactly one update, and no other client is. It tells the current
/// step, and is packed against what the client told last that it has seen, however far back that
/// is: as many steps back as the client lacks. The session and the players stay.
pub proof fn updates_go_back_to_what_was_seen<C, L, P: RemotePlayer, R: Replicator>(
    server: &mut ServerSystem<C, L, P, R>,
    world: &mut hecs::World,
    updates: Vec<(usize, ServerMessage<Connected, PlayerId, WorldReplicaPack>)>,
)
    requires
        old(server).link().in_time(),
        old(server).link().clients().len() <= usize::MAX,
        call_ensures(ServerSystem::<C, L, P, R>::updates, (server, world), updates),
    ensures
        final(server).link() == old(server).link(),
        final(server).players() == old(server).players(),
        forall|k: int|
            0 <= k < updates@.len() ==> {
                let (i, message) = #[trigger] updates@[k];
                let client = old(server).link().clients()[i as int];
                &&& i < old(server).link().clients().len()
                &&& client.state is Connected
                &&& client.next_update_step <= old(server).link().step()
                &&& message matches ServerMessage::Updates { server_step, updates: pack } && {
                    &&& server_step == old(server).link().step()
                    &&& replicas::packed::<(R, PlayerIdDescriptor)>(
                        pack,
                        final(server).replicas()@,
                        final(server).mapper(),
                        (old(server).link().step() - client.next_update_step) as u64,
                        *final(world),
                    )
                }
            },
        forall|j: int, k: int|
            0 <= j < k < updates@.len() ==> (#[trigger] updates@[j]).0 < (#[trigger] updates@[k]).0,
        forall|i: int|
            0 <= i < old(server).link().clients().len()
                && (#[trigger] old(server).link().clients()[i]).state is Connected ==> exists|k: int|
                0 <= k < updates@.len() && (#[trigger] updates@[k]).0 == i,
{
    let clients = old(server).link().clients();
    let step = old(server).link().step();
    let due = session::due(clients, step);
    sessions::due_is_what_is_lacking(clients, step);
    assert forall|k: int| 0 <= k < updates@.len() implies {
        let (i, message) = #[trigger] updates@[k];
        let client = clients[i as int];
        &&& i < clients.len()
        &&& client.state is Connected
        &&& client.next_update_step <= step
        &&& message matches ServerMessage::Updates { server_step, updates: pack } && {
            &&& server_step == step
            &&& replicas::packed::<(R, PlayerIdDescriptor)>(
                pack,
                final(server).replicas()@,
                final(server).mapper(),
                (step - client.next_update_step) as u64,
                *final(world),
            )
        }
    } by {
        assert(updates@[k].0 == due[k].0);
    }
    assert forall|j: int, k: int| 0 <= j < k < updates@.len() implies (#[trigger] updates@[j]).0
        < (#[trigger] updates@[k]).0 by {
        assert(due[j].0 < due[k].0);
    }
    assert forall|i: int|
        0 <= i < clients.len() && (#[trigger] clients[i]).state is Connected implies exists|k: int|
        0 <= k < updates@.len() && (#[trigger] updates@[k]).0 == i by {
        let k = choose|k: int| 0 <= k < due.len() && (#[trigger] due[k]).0 == i;
        assert(updates@[k].0 == i);
    }
}

/// The client at `i` is sent `pack`.
pub open spec fn is_sent(
    updates: Seq<(usize, ServerMessage<Connected, PlayerId, WorldReplicaPack>)>,
    i: int,
    step: u64,
    pack: WorldReplicaPack,
) -> bool {
    exists|k: int|
        0 <= k < updates.len() && (#[trigger] updates[k]).0 == i && (updates[k].1
            matches ServerMessage::Updates { server_step, updates: sent } && server_step == step
            && sent == pack)
}

/// Every connected client is brought up to date: once it applied the update that it was sent, it
/// mirrors the server's world of this step, however many steps it was behind, if it mirrored the
/// step before the first that it has not told to have seen, or has told of none. Where it was
/// behind, `before` are the replicas of the last step that it has seen, `worlds` are the server's
/// worlds, and `first` tells when entities came.
pub proof fn clients_are_brought_up_to_date<C, L, P: RemotePlayer, M: Mirror>(
    server: &mut ServerSystem<C, L, P, M::Server>,
    world: &mut hecs::World,
    updates: Vec<(usize, ServerMessage<Connected, PlayerId, WorldReplicaPack>)>,
    i: int,
    pack: WorldReplicaPack,
    before: Seq<Replica<<(M::Server, PlayerIdDescriptor) as Replicator>::Histories>>,
    worlds: spec_fn(int) -> hecs::World,
    first: spec_fn(u64) -> int,
    rest: Seq<u8>,
    m0: Map<u64, u64>,
    w0: hecs::World,
    m1: Map<u64, u64>,
    w1: hecs::World,
    result: Result<(), ReplicateError>,
)
    requires
        old(server).link().in_time(),
        old(server).link().clients().len() <= usize::MAX,
        call_ensures(ServerSystem::<C, L, P, M::Server>::updates, (server, world), updates),
        0 <= i < old(server).link().clients().len(),
        is_sent(updates@, i, old(server).link().step(), pack),
        M::tidy(),
        M::independent(),
        convergence::agreed::<M>(final(server).replicas()@, *final(world)),
        worlds(old(server).link().step() as int) == *final(world),
        convergence::recorded_since::<(M, PlayerIdPair)>(
            final(server).replicas()@,
            worlds,
            first,
            old(server).link().step() as int,
        ),
        ({
            let next = old(server).link().clients()[i].next_update_step;
            next > 0 ==> {
                &&& convergence::mirrored::<(M, PlayerIdPair)>(before, worlds(next - 1), m0, w0)
                &&& forall|j: int|
                    0 <= j < final(server).replicas()@.len() && first(
                        (#[trigger] final(server).replicas()@[j]).nid.0,
                    ) < next && world::owned(worlds(next - 1)).contains(
                        final(server).replicas()@[j].entity,
                    ) && replicas::replicated(*final(world), final(server).replicas()@[j])
                        ==> convergence::was_replicated(
                        before,
                        worlds(next - 1),
                        final(server).replicas()@[j],
                    )
            }
        }),
        convergence::sane(w0),
        convergence::settled(m0, w0),
        nid::one_to_one(m0),
        replicator::message_applied::<(M::Client, client::PlayerIdDescriptor)>(
            pack.updated as nat,
            pack.removed@.len(),
            m0,
            w0,
            m1,
            w1,
            pack.body@ + rest,
            result,
        ),
    ensures
        result is Ok ==> {
            &&& convergence::mirrored::<(M, PlayerIdPair)>(
                final(server).replicas()@,
                *final(world),
                m1,
                w1,
            )
            &&& forall|nid: u64| #[trigger]
                final(server).mapper().removed(*final(world)).contains(nid)
                    ==> !convergence::knows(m1, w1, nid)
        },
        result is Err ==> result == Err::<(), _>(
            ReplicateError::Mapper(nid::MapperError::WorldFull),
        ) || result == Err::<(), _>(ReplicateError::HandlesExhausted),
{
    updates_go_back_to_what_was_seen(server, world, updates);
    let step = old(server).link().step();
    let next = old(server).link().clients()[i].next_update_step;
    let rows = final(server).replicas()@;
    let back = (step - next) as u64;
    let k = choose|k: int|
        0 <= k < updates@.len() && (#[trigger] updates@[k]).0 == i && (updates@[k].1
            matches ServerMessage::Updates { server_step, updates: sent } && server_step == step
            && sent == pack);
    assert(replicas::packed::<(M::Server, PlayerIdDescriptor)>(
        pack,
        rows,
        final(server).mapper(),
        back,
        *final(world),
    ));
    if next == 0 {
        convergence::newcomers_are_up_to_date::<(M, PlayerIdPair)>(
            rows,
            worlds,
            first,
            step,
            m0,
            w0,
        );
    } else {
        convergence::mirrors_are_up_to_date::<(M, PlayerIdPair)>(
            before,
            rows,
            worlds,
            first,
            step,
            next,
            m0,
            w0,
        );
    }
    convergence::client_mirrors_server::<M>(
        pack,
        rows,
        final(server).mapper(),
        final(server).id_gen(),
        back,
        *final(world),
        rest,
        m0,
        w0,
        m1,
        w1,
        result,
    );
}

/// `after` is `before` with one more point, the newest: the state of its entity in `w`, which is
/// the player's number and what the other descriptors note, and whether the server owns it. No
/// earlier point is lost.
pub open spec fn is_noted<R: Replicator>(
    before: Replica<<(R, PlayerIdDescriptor) as Replicator>::Histories>,
    after: Replica<<(R, PlayerIdDescriptor) as Replicator>::Histories>,
    w: hecs::World,
) -> bool {
    &&& R::recorded(before.histories.0, after.histories.0, w, before.entity)
    &&& after.histories.1@.len() == before.histories.1@.len() + 1
    &&& after.histories.1@[0] == (if world::player_ids(w).contains_key(before.entity) {
        Some(PlayerId(world::player_ids(w)[before.entity]))
    } else {
        None
    })
    &&& forall|k: int|
        0 <= k < before.histories.1@.len() ==> #[trigger] after.histories.1@[k + 1]
            == before.histories.1@[k]
    &&& after.marks@.len() == before.marks@.len() + 1
    &&& after.marks@[0] is Some <==> world::owned(w).contains(before.entity)
    &&& forall|k: int|
        0 <= k < before.marks@.len() ==> #[trigger] after.marks@[k + 1] == before.marks@[k]
}

/// After the updates were sent, a step is over: the next begins, the clients that could not be
/// reached are disconnected, and no other client changes. Exactly the ids of entities that died are
/// forgotten. The world, the players and the ids to come stay.
pub proof fn steps_end<C, L, P: RemotePlayer, R: Replicator>(
    server: &mut ServerSystem<C, L, P, R>,
    world: &mut hecs::World,
    failed: Vec<usize>,
)
    requires
        old(server).link().clients().len() <= usize::MAX,
        call_ensures(ServerSystem::<C, L, P, R>::finish, (server, world, &failed), ()),
    ensures
        *final(world) == *old(world),
        final(server).players() == old(server).players(),
        final(server).id_gen() == old(server).id_gen(),
        final(server).link().step() == old(server).link().step() + 1,
        final(server).link().source() == old(server).link().source(),
        final(server).link().next_client_id() == old(server).link().next_client_id(),
        final(server).link().clients().len() == old(server).link().clients().len(),
        forall|j: int|
            0 <= j < old(server).link().clients().len() ==> {
                let c0 = old(server).link().clients()[j];
                let c1 = #[trigger] final(server).link().clients()[j];
                &&& c1.id == c0.id
                &&& c1.channel == c0.channel
                &&& c1.last_input_step == c0.last_input_step
                &&& c1.next_update_step == c0.next_update_step
                &&& (exists|k: int| 0 <= k < failed@.len() && #[trigger] failed@[k] == j)
                    ==> c1.state is Disconnected
                &&& !(exists|k: int| 0 <= k < failed@.len() && #[trigger] failed@[k] == j)
                    ==> c1.state == c0.state
            },
        forall|nid: u64| #[trigger]
            final(server).mapper()@.contains_key(nid) <==> old(server).mapper()@.contains_key(nid)
                && !world::dead_handles(*old(world)).contains(old(server).mapper()@[nid]),
        forall|nid: u64| #[trigger]
            final(server).mapper()@.contains_key(nid)
                ==> final(server).mapper()@[nid] == old(server).mapper()@[nid],
        forall|i: int|
            0 <= i < final(server).replicas()@.len() ==> {
                let row = #[trigger] final(server).replicas()@[i];
                &&& world::server_ids(*old(world)).contains_pair(row.entity, row.nid.0)
                &&& exists|j: int|
                    {
                        &&& 0 <= j < old(server).replicas()@.len()
                        &&& (#[trigger] old(server).replicas()@[j]).entity == row.entity
                        &&& old(server).replicas()@[j].nid == row.nid
                        &&& is_noted::<R>(old(server).replicas()@[j], row, *old(world))
                    }
            },
        forall|j: int|
            0 <= j < old(server).replicas()@.len() ==> {
                let row = #[trigger] old(server).replicas()@[j];
                world::server_ids(*old(world)).contains_pair(row.entity, row.nid.0) ==> exists|
                    i: int,
                |
                    {
                        &&& 0 <= i < final(server).replicas()@.len()
                        &&& (#[trigger] final(server).replicas()@[i]).entity == row.entity
                        &&& final(server).replicas()@[i].nid == row.nid
                    }
            },
{
    let r0 = old(server).replicas()@;
    let r1 = final(server).replicas()@;
    let kept = replicas::survivors(r0, *old(world));
    assert forall|j: int| 0 <= j < old(server).link().clients().len() implies {
        let c0 = old(server).link().clients()[j];
        let c1 = #[trigger] final(server).link().clients()[j];
        &&& c1.id == c0.id
        &&& c1.channel == c0.channel
        &&& c1.last_input_step == c0.last_input_step
        &&& c1.next_update_step == c0.next_update_step
        &&& (exists|k: int| 0 <= k < failed@.len() && #[trigger] failed@[k] == j)
            ==> c1.state is Disconnected
        &&& !(exists|k: int| 0 <= k < failed@.len() && #[trigger] failed@[k] == j) ==> c1.state
            == c0.state
    } by {
        let u: usize = j as usize;
        if exists|k: int| 0 <= k < failed@.len() && #[trigger] failed@[k] == j {
            let k = choose|k: int| 0 <= k < failed@.len() && #[trigger] failed@[k] == j;
            assert(failed@[k] == u);
            assert(failed@.contains(u));
        }
        if failed@.contains(u) {
            let k = choose|k: int| 0 <= k < failed@.len() && failed@[k] == u;
            assert(failed@[k] == j);
        }
    }
    assert forall|i: int| 0 <= i < r1.len() implies {
        let row = #[trigger] r1[i];
        &&& world::server_ids(*old(world)).contains_pair(row.entity, row.nid.0)
        &&& exists|j: int|
            {
                &&& 0 <= j < r0.len()
                &&& (#[trigger] r0[j]).entity == row.entity
                &&& r0[j].nid == row.nid
                &&& is_noted::<R>(r0[j], row, *old(world))
            }
    } by {
        assert(replicas::recorded::<(R, PlayerIdDescriptor)>(kept[i], r1[i], *old(world)));
        assert(kept.contains(kept[i]));
        replicas::survivors_are_live(r0, *old(world), kept[i]);
        let j = choose|j: int| 0 <= j < r0.len() && r0[j] == kept[i];
        assert(r0[j].entity == r1[i].entity);
        assert forall|k: int| 0 <= k < r0[j].marks@.len() implies #[trigger] r1[i].marks@[k + 1]
            == r0[j].marks@[k] by {
        }
        assert forall|k: int| 0 <= k < r0[j].histories.1@.len() implies #[trigger]
        r1[i].histories.1@[k + 1] == r0[j].histories.1@[k] by {
        }
        assert(is_noted::<R>(r0[j], r1[i], *old(world)));
    }
    assert forall|j: int| 0 <= j < r0.len() implies {
        let row = #[trigger] r0[j];
        world::server_ids(*old(world)).contains_pair(row.entity, row.nid.0) ==> exists|i: int|
            {
                &&& 0 <= i < r1.len()
                &&& (#[trigger] r1[i]).entity == row.entity
                &&& r1[i].nid == row.nid
            }
    } by {
        if replicas::live(*old(world), r0[j]) {
            assert(r0.contains(r0[j]));
            replicas::survivors_are_live(r0, *old(world), r0[j]);
            let i = choose|i: int| 0 <= i < kept.len() && kept[i] == r0[j];
            assert(replicas::recorded::<(R, PlayerIdDescriptor)>(kept[i], r1[i], *old(world)));
            assert(r1[i].entity == r0[j].entity);
        }
    }
}

/// A new server has neither clients nor players nor entities, is at step zero, and begins to count
/// clients and ids at one.
pub proof fn servers_start_empty<C, L, P: RemotePlayer, R: Replicator>(
    listener: L,
    server: ServerSystem<C, L, P, R>,
)
    requires
        call_ensures(ServerSystem::<C, L, P, R>::new, (listener,), server),
    ensures
        server.link().source() == listener,
        server.link().step() == 0,
        server.link().clients().len() == 0,
        server.link().next_client_id() == 1,
        server.players().dom().is_empty(),
        server.mapper()@.dom().is_empty(),
        server.replicas()@.len() == 0,
        server.id_gen().next() == 1,
{
}

/// A step can be finished exactly where ids are left for all entities that there can be, steps are
/// left, and no connected client claims to have seen what has not been. A player can be added
/// exactly where an id is left.
pub proof fn servers_tell_what_they_can<C, L, P: RemotePlayer, R: Replicator>(
    server: ServerSystem<C, L, P, R>,
    ready: bool,
    more: bool,
)
    requires
        call_ensures(ServerSystem::<C, L, P, R>::ready, (&server,), ready),
        call_ensures(ServerSystem::<C, L, P, R>::has_id, (&server,), more),
    ensures
        ready <==> {
            &&& server.id_gen().next() + 0x1_0000_0000 <= 0xFFFF_FFFF_FFFF_FFFF
            &&& server.link().step() < 0xFFFF_FFFF_FFFF_FFFF
            &&& forall|i: int|
                0 <= i < server.link().clients().len() && (#[trigger] server.link().clients()[i]).state
                    is Connected ==> server.link().clients()[i].next_update_step
                    <= server.link().step()
        },
        more <==> server.id_gen().next() < 0xFFFF_FFFF_FFFF_FFFF,
{
}

/// To use a server's session changes nothing else of the server.
pub proof fn sessions_can_be_used<C, L, P: RemotePlayer, R: Replicator>(
    server: &mut ServerSystem<C, L, P, R>,
    link: &mut ServerSession<C, L>,
)
    requires
        call_ensures(ServerSystem::<C, L, P, R>::session, (server,), link),
    ensures
        *old(link) == old(server).link(),
        *final(link) == final(server).link(),
        final(server).players() == old(server).players(),
        final(server).id_gen() == old(server).id_gen(),
        final(server).mapper() == old(server).mapper(),
        final(server).replicas() == old(server).replicas(),
{
}

/// A descriptor is added exactly where none with its id was added before, however many there are,
/// and is then known. A player type leaves the descriptors as they are. A builder starts without
/// any, and builds servers that start empty.
pub proof fn descriptors_are_added_once<
    C,
    L,
    P: RemotePlayer,
    R: Replicator,
    T: server::Descriptor,
>(
    empty: ServerBuilder<NoRemotePlayerType, ()>,
    bare: ServerBuilder<NoRemotePlayerType, R>,
    typed: ServerBuilder<P, R>,
    builder: ServerBuilder<P, R>,
    id: TypeId,
    added: Option<ServerBuilder<P, (R, T)>>,
    listener: L,
    built: ServerSystem<C, L, P, R>,
)
    requires
        call_ensures(ServerBuilder::<NoRemotePlayerType, ()>::new, (), empty),
        call_ensures(ServerBuilder::<NoRemotePlayerType, R>::with_player::<P>, (bare,), typed),
        call_ensures(ServerBuilder::<P, R>::with_descriptor_id::<T>, (builder, id), added),
        call_ensures(ServerBuilder::<P, R>::build::<C, L>, (&builder, listener), built),
    ensures
        empty.ids().len() == 0,
        typed.ids() == bare.ids(),
        added is None <==> exists|k: int|
            0 <= k < builder.ids().len() && #[trigger] builder.ids()[k] == id,
        added matches Some(added) ==> {
            &&& added.ids().len() == builder.ids().len() + 1
            &&& added.ids().last() == id
            &&& forall|k: int|
                0 <= k < builder.ids().len() ==> #[trigger] added.ids()[k] == builder.ids()[k]
        },
        built.link().source() == listener,
        built.link().step() == 0,
        built.link().clients().len() == 0,
        built.link().next_client_id() == 1,
        built.players().dom().is_empty(),
        built.mapper()@.dom().is_empty(),
        built.replicas()@.len() == 0,
        built.id_gen().next() == 1,
{
    if added is None {
        assert(builder.ids().contains(id));
        let k = choose|k: int| 0 <= k < builder.ids().len() && builder.ids()[k] == id;
        assert(builder.ids()[k] == id);
    }
}

/// A player that is nobody accepts anything and does nothing.
pub proof fn dummies_do_nothing(
    bytes: Seq<u8>,
    player: DummyRemotePlayer,
    after: DummyRemotePlayer,
    pid: PlayerId,
    entity: u64,
    w0: hecs::World,
    w1: hecs::World,
    result: Result<DummyRemotePlayer, ()>,
)
    ensures
        <DummyRemotePlayer as RemotePlayer>::info_of(bytes) is Some,
        <DummyRemotePlayer as RemotePlayer>::input_of(bytes) is Some,
        <DummyRemotePlayer as RemotePlayer>::accepted((), pid, w0, w1, result) ==> result is Ok
            && w1 == w0,
        player.left(w0, w1) ==> w1 == w0,
        <DummyRemotePlayer as RemotePlayer>::applied(player, after, entity, w0, w1, ()) ==> w1
            == w0,
{
}

/// Updates are made of all entities that the server owns, those included that are new: each of
/// these gets an id that was never handed out, by which it is mapped, and is replicated from then
/// on. No other entity is. Those before stay, and so does everything else in the world.
pub proof fn updates_begin_with_what_is_new<C, L, P: RemotePlayer, R: Replicator>(
    server: &mut ServerSystem<C, L, P, R>,
    world: &mut hecs::World,
    updates: Vec<(usize, ServerMessage<Connected, PlayerId, WorldReplicaPack>)>,
    e: u64,
)
    requires
        old(server).wf(),
        call_ensures(ServerSystem::<C, L, P, R>::updates, (server, world), updates),
    ensures
        world::owned(*old(world)).contains(e) ==> world::server_ids(*final(world)).contains_key(e),
        world::server_ids(*old(world)).contains_key(e) ==> world::server_ids(
            *final(world),
        ).contains_pair(e, world::server_ids(*old(world))[e]),
        world::server_ids(*final(world)).contains_key(e) ==> world::server_ids(
            *old(world),
        ).contains_key(e) || world::owned(*old(world)).contains(e),
        world::owned(*old(world)).contains(e) && !world::server_ids(*old(world)).contains_key(e)
            ==> {
            let nid = world::server_ids(*final(world))[e];
            &&& old(server).id_gen().next() <= nid < final(server).id_gen().next()
            &&& !old(server).mapper()@.contains_key(nid)
            &&& final(server).mapper()@.contains_pair(nid, e)
            &&& exists|i: int|
                {
                    &&& old(server).replicas()@.len() <= i < final(server).replicas()@.len()
                    &&& (#[trigger] final(server).replicas()@[i]).entity == e
                    &&& final(server).replicas()@[i].nid.0 == nid
                    &&& final(server).replicas()@[i].marks@.len() == 0
                }
        },
        final(server).replicas()@.len() >= old(server).replicas()@.len(),
        forall|i: int|
            0 <= i < old(server).replicas()@.len() ==> #[trigger] final(server).replicas()@[i]
                == old(server).replicas()@[i],
        world::net_ids(*final(world)) == world::net_ids(*old(world)),
        world::player_ids(*final(world)) == world::player_ids(*old(world)),
        world::owned(*final(world)) == world::owned(*old(world)),
        world::others(*final(world)) == world::others(*old(world)),
{
    let r0 = old(server).replicas()@;
    let r1 = final(server).replicas()@;
    let news = r1.skip(r0.len() as int);
    let w0 = *old(world);
    assert forall|i: int| 0 <= i < r0.len() implies #[trigger] r1[i] == r0[i] by {
        assert(r1.take(r0.len() as int)[i] == r1[i]);
    }
    steps::ids_stay(world::server_ids(w0), news, e);
    if world::owned(w0).contains(e) {
        steps::owned_are_adopted::<(R, PlayerIdDescriptor)>(
            r0,
            old(server).id_gen(),
            old(server).mapper(),
            w0,
            r1,
            final(server).id_gen(),
            final(server).mapper(),
            *final(world),
            e,
        );
    }
    if exists|k: int| 0 <= k < news.len() && (#[trigger] news[k]).entity == e {
        let k = choose|k: int| 0 <= k < news.len() && (#[trigger] news[k]).entity == e;
        assert(replicas::handles(news)[k] == e);
        assert(replicas::handles(news).to_set().contains(e));
    }
}

/// A client that asks for it is connected, where it is still there, and told the step at which it
/// asked. Its state changes and nothing else: neither of it, nor of other clients, nor of the
/// server.
pub proof fn clients_that_ask_are_connected<C, L, P: RemotePlayer, R: Replicator, J, U>(
    server: &mut ServerSystem<C, L, P, R>,
    event: ClientConnectEvent,
    message: Option<ServerMessage<Connected, J, U>>,
)
    requires
        old(server).wf(),
        call_ensures(ServerSystem::<C, L, P, R>::connect::<J, U>, (server, event), message),
    ensures
        is_connected(old(server).link(), final(server).link(), event, message),
        final(server).players() == old(server).players(),
        final(server).id_gen() == old(server).id_gen(),
        final(server).mapper() == old(server).mapper(),
        final(server).replicas() == old(server).replicas(),
{
    lemma_is_connected(old(server).link(), final(server).link(), event, message);
}

/// `s1` is the session `s0` after the client that asked was connected: only its state differs.
/// `message` tells it the step at which it asked, and is there exactly where the client is.
pub open spec fn is_connected<C, L, J, U>(
    s0: ServerSession<C, L>,
    s1: ServerSession<C, L>,
    event: ClientConnectEvent,
    message: Option<ServerMessage<Connected, J, U>>,
) -> bool {
    &&& s1.source() == s0.source()
    &&& s1.step() == s0.step()
    &&& s1.next_client_id() == s0.next_client_id()
    &&& s1.clients().len() == s0.clients().len()
    &&& forall|j: int|
        0 <= j < s0.clients().len() ==> {
            let c0 = s0.clients()[j];
            let c1 = #[trigger] s1.clients()[j];
            &&& c1.id == c0.id
            &&& c1.channel == c0.channel
            &&& c1.last_input_step == c0.last_input_step
            &&& c1.next_update_step == c0.next_update_step
            &&& c0.id == event.asker() ==> c1.state is Connected
            &&& c0.id != event.asker() ==> c1.state == c0.state
        }
    &&& message is Some <==> exists|j: int|
        0 <= j < s0.clients().len() && (#[trigger] s0.clients()[j]).id == event.asker()
    &&& message matches Some(message) ==> (message matches ServerMessage::Connected(hello)
        && hello.step == event.asked_at())
}

proof fn lemma_is_connected<C, L, J, U>(
    s0: ServerSession<C, L>,
    s1: ServerSession<C, L>,
    event: ClientConnectEvent,
    message: Option<ServerMessage<Connected, J, U>>,
)
    requires
        s0.wf(),
        session::connected(s0, s1, event, message),
    ensures
        is_connected(s0, s1, event, message),
{
    let clients = s0.clients();
    if let Some(i) = session::position(clients, event.asker()) {
        assert(clients[i].id == event.asker());
        assert forall|j: int| 0 <= j < clients.len() && j != i implies (#[trigger] clients[j]).id
            != event.asker() by {
        }
    }
}

/// What a client did is answered for what it is: one that asks is connected, a player is added,
/// inputs reach their entities, and with a client that is gone its players go.
pub proof fn events_are_handled<C, L, P: RemotePlayer, R: Replicator, U>(
    server: &mut ServerSystem<C, L, P, R>,
    cid: ClientId,
    event: Event<Vec<u8>, PackedInput>,
    world: &mut hecs::World,
    message: Option<ServerMessage<Connected, PlayerId, U>>,
)
    requires
        old(server).wf(),
        call_ensures(
            ServerSystem::<C, L, P, R>::handle::<U>,
            (server, cid, event, world),
            message,
        ),
    ensures
        final(server).mapper() == old(server).mapper(),
        final(server).replicas() == old(server).replicas(),
        !(event is AddPlayer) ==> final(server).id_gen() == old(server).id_gen(),
        !(event is ClientConnect) ==> final(server).link() == old(server).link(),
        event matches Event::ClientConnect(asked) ==> {
            &&& is_connected(old(server).link(), final(server).link(), asked, message)
            &&& final(server).players() == old(server).players()
            &&& *final(world) == *old(world)
        },
        event matches Event::AddPlayer(add) ==> {
            &&& final(server).id_gen().next() == old(server).id_gen().next() + 1
            &&& player_joins(
                old(server).players(),
                *old(world),
                final(server).players(),
                *final(world),
                cid,
                old(server).id_gen().next(),
                add.description()@,
                message,
            )
        },
        event matches Event::Inputs(taken) ==> {
            &&& message is None
            &&& exists|ps: Seq<Map<u64, ConnectedPlayer<P>>>, ws: Seq<hecs::World>| #[trigger]
                inputs_reach(
                    old(server).mapper()@,
                    old(server).players(),
                    *old(world),
                    final(server).players(),
                    *final(world),
                    taken.sent(),
                    ps,
                    ws,
                )
        },
        event is Disconnected ==> {
            &&& message is None
            &&& exists|order: Seq<u64>, ws: Seq<hecs::World>| #[trigger]
                players_go(
                    old(server).players(),
                    *old(world),
                    final(server).players(),
                    *final(world),
                    cid,
                    order,
                    ws,
                )
        },
{
    let p0 = old(server).players();
    let p1 = final(server).players();
    match event {
        Event::ClientConnect(asked) => {
            lemma_is_connected(old(server).link(), final(server).link(), asked, message);
        },
        Event::AddPlayer(add) => {
            lemma_player_joins(
                p0,
                *old(world),
                p1,
                *final(world),
                cid,
                old(server).id_gen().next(),
                add.description()@,
                message,
            );
        },
        Event::Inputs(taken) => {
            lemma_sent_reach(
                old(server).mapper()@,
                p0,
                *old(world),
                p1,
                *final(world),
                taken.sent(),
            );
        },
        Event::Disconnected => {
            lemma_players_go(p0, *old(world), p1, *final(world), cid);
        },
    }
}

/// A descriptor is told from others by the id of its type: it is added exactly where none with that
/// id was, and is then known by it. To begin with there is none.
pub proof fn descriptor_types_are_added_once<P, R, T: server::Descriptor + 'static>(
    empty: ServerBuilder<NoRemotePlayerType, ()>,
    builder: ServerBuilder<P, R>,
    added: Option<ServerBuilder<P, (R, T)>>,
)
    requires
        call_ensures(ServerSystem::<(), (), DummyRemotePlayer, ()>::builder, (), empty),
        call_ensures(ServerBuilder::<P, R>::with_descriptor::<T>, (builder,), added),
    ensures
        empty.ids().len() == 0,
        exists|id: TypeId|
            {
                &&& #[trigger] call_ensures(types::id_of::<T>, (), id)
                &&& added is None <==> builder.ids().contains(id)
                &&& added matches Some(added) ==> added.ids() == builder.ids() + seq![id]
            },
{
    let id = choose|id: TypeId|
        {
            &&& #[trigger] call_ensures(types::id_of::<T>, (), id)
            &&& added is None <==> builder.ids().contains(id)
            &&& added matches Some(added) ==> added.ids() == builder.ids().push(id)
        };
    assert(builder.ids().push(id) =~= builder.ids() + seq![id]);
    assert(call_ensures(types::id_of::<T>, (), id));
}

} // verus!
