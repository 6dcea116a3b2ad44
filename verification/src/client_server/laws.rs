//! What the operations of a server session mean: the laws of sessions, stated of what the functions
//! are given and give.

use crate::client_server::{
    AddPlayerEvent, Client, ClientConnectEvent, ClientId, ClientMessage, Connected, Event,
    InputStep, InputsEvent, PlayerId, ServerMessage, ServerSession,
};
use crate::client_server::server;
use vstd::prelude::*;

verus! {

/// Each connected client is due exactly one update, and no other is. The clients come in their
/// order. For each the update is compared with the state of the step before the first that the
/// client has not seen, however far it is behind: as many steps back as it lacks.
pub proof fn due_goes_back_to_what_was_seen<C, L>(
    session: ServerSession<C, L>,
    backs: Vec<(usize, u64)>,
)
    requires
        session.in_time(),
        call_ensures(ServerSession::<C, L>::due, (&session,), backs),
    ensures
        forall|k: int|
            0 <= k < backs@.len() ==> {
                let (i, back) = #[trigger] backs@[k];
                &&& i < session.clients().len()
                &&& session.clients()[i as int].state is Connected
                &&& back <= session.step()
                &&& session.step() - back == session.clients()[i as int].next_update_step
            },
        forall|j: int, k: int|
            0 <= j < k < backs@.len() ==> (#[trigger] backs@[j]).0 < (#[trigger] backs@[k]).0,
        forall|i: int|
            0 <= i < session.clients().len() && (#[trigger] session.clients()[i]).state is Connected
                ==> exists|k: int| 0 <= k < backs@.len() && (#[trigger] backs@[k]).0 == i,
{
    let ints = |back: (usize, u64)| (back.0 as int, back.1 as int);
    let due = server::due(session.clients(), session.step());
    assert(backs@.map_values(ints) == due);
    due_is_what_is_lacking(session.clients(), session.step());
    assert forall|k: int| 0 <= k < backs@.len() implies {
        let (i, back) = #[trigger] backs@[k];
        &&& i < session.clients().len()
        &&& session.clients()[i as int].state is Connected
        &&& back <= session.step()
        &&& session.step() - back == session.clients()[i as int].next_update_step
    } by {
        assert(due[k] == ints(backs@[k]));
    }
    assert forall|j: int, k: int| 0 <= j < k < backs@.len() implies (#[trigger] backs@[j]).0 < (
    #[trigger] backs@[k]).0 by {
        assert(due[j] == ints(backs@[j]));
        assert(due[k] == ints(backs@[k]));
    }
    assert forall|i: int|
        0 <= i < session.clients().len() && (#[trigger] session.clients()[i]).state is
            Connected implies exists|k: int|
        0 <= k < backs@.len() && (#[trigger] backs@[k]).0 == i by {
        let k = choose|k: int| 0 <= k < due.len() && (#[trigger] due[k]).0 == i;
        assert(due[k] == ints(backs@[k]));
        assert(backs@[k].0 == i);
    }
}

/// Exactly the connected clients are due, in their order, each by as many steps as it lacks.
pub proof fn due_is_what_is_lacking<C>(clients: Seq<Client<C>>, step: u64)
    ensures
        forall|k: int|
            0 <= k < server::due(clients, step).len() ==> {
                let (i, back) = #[trigger] server::due(clients, step)[k];
                &&& 0 <= i < clients.len()
                &&& clients[i].state is Connected
                &&& back == step - clients[i].next_update_step
            },
        forall|j: int, k: int|
            0 <= j < k < server::due(clients, step).len() ==> (#[trigger] server::due(
                clients,
                step,
            )[j]).0 < (#[trigger] server::due(clients, step)[k]).0,
        forall|i: int|
            0 <= i < clients.len() && (#[trigger] clients[i]).state is Connected ==> exists|k: int|
                0 <= k < server::due(clients, step).len() && (#[trigger] server::due(
                    clients,
                    step,
                )[k]).0 == i,
    decreases clients.len(),
{
    if clients.len() > 0 {
        let rest = clients.drop_last();
        let before = server::due(rest, step);
        let all = server::due(clients, step);
        due_is_what_is_lacking(rest, step);
        assert forall|i: int| 0 <= i < rest.len() implies rest[i] == #[trigger] clients[i] by {
        }
        assert(clients[clients.len() - 1] == clients.last());
        assert forall|i: int|
            0 <= i < clients.len() && (#[trigger] clients[i]).state is Connected implies exists|
            k: int,
        | 0 <= k < all.len() && (#[trigger] all[k]).0 == i by {
            if i < rest.len() {
                assert(rest[i].state is Connected);
                let k = choose|k: int| 0 <= k < before.len() && (#[trigger] before[k]).0 == i;
                assert(all[k] == before[k]);
            } else {
                assert(all[all.len() - 1].0 == i);
            }
        }
    }
}

/// What a message of a client leads to. A connected client that adds a player or sends inputs that
/// are not older than those before is heard, whatever it did before; so is one that asks to be
/// connected and was not. It is reported as disconnected exactly where its channel failed or where
/// it is not in a state to send what it sent. Where nothing arrived, or old inputs did, there is no
/// event.
pub proof fn clients_are_heard<C, L, P, I, E>(
    session: &mut ServerSession<C, L>,
    i: usize,
    received: Result<Option<ClientMessage<InputStep, P, I>>, E>,
    event: Option<(ClientId, Event<P, I>)>,
)
    requires
        i < old(session).clients().len(),
        call_ensures(ServerSession::<C, L>::receive::<P, I, E>, (session, i, received), event),
    ensures
        event matches Some((cid, _)) ==> cid == old(session).clients()[i as int].id,
        ({
            let client = old(session).clients()[i as int];
            &&& received matches Ok(Some(ClientMessage::AddPlayer { player })) ==> (
            client.state is Connected ==> (event matches Some((_, Event::AddPlayer(add)))
                && add.asker() == client.id && add.description() == player))
            &&& received matches Ok(Some(ClientMessage::Connect { .. })) ==> (
            client.state is Pending ==> (event matches Some((_, Event::ClientConnect(connect)))
                && connect.asker() == client.id && connect.asked_at() == old(session).step()))
            &&& received matches Ok(Some(ClientMessage::Inputs { at, inputs })) ==> (
            client.state is Connected ==> if at.step < client.last_input_step {
                event is None
            } else {
                event matches Some((_, Event::Inputs(taken))) && taken.sent() == inputs@
                    && taken.sent_at() == at.step
            })
            &&& received matches Ok(None) ==> event is None
            &&& (event matches Some((_, Event::Disconnected))) <==> match received {
                Err(_) => true,
                Ok(None) => false,
                Ok(Some(ClientMessage::Connect { .. })) => !(client.state is Pending),
                Ok(Some(_)) => !(client.state is Connected),
            }
            &&& event is None <==> match received {
                Ok(None) => true,
                Ok(Some(ClientMessage::Inputs { at, .. })) => client.state is Connected && at.step
                    < client.last_input_step,
                _ => false,
            }
        }),
{
}

/// What the client `id` tells to have seen, where inputs are taken of `client` that were
/// `received`.
pub open spec fn taken_of<C, P, I, E>(
    client: Client<C>,
    received: Result<Option<ClientMessage<InputStep, P, I>>, E>,
    id: ClientId,
) -> Option<u64> {
    match received {
        Ok(Some(ClientMessage::Inputs { at, .. })) if client.id == id && client.state is Connected
            => Some(at.next_update_step),
        _ => None,
    }
}

/// What a message of a client changes. The session's other clients and all that is not theirs stay.
/// The client keeps its id and its channel. What it has seen changes only with inputs that are
/// taken of it, and is then what these tell. The step of its inputs never goes back. It is
/// disconnected exactly where its channel failed or where it asks again to be connected.
pub proof fn messages_change_their_client<C, L, P, I, E>(
    session: &mut ServerSession<C, L>,
    i: usize,
    received: Result<Option<ClientMessage<InputStep, P, I>>, E>,
    event: Option<(ClientId, Event<P, I>)>,
)
    requires
        old(session).wf(),
        i < old(session).clients().len(),
        call_ensures(ServerSession::<C, L>::receive::<P, I, E>, (session, i, received), event),
    ensures
        final(session).source() == old(session).source(),
        final(session).step() == old(session).step(),
        final(session).next_client_id() == old(session).next_client_id(),
        final(session).clients().len() == old(session).clients().len(),
        forall|j: int|
            0 <= j < old(session).clients().len() && j != i
                ==> #[trigger] final(session).clients()[j] == old(session).clients()[j],
        ({
            let c0 = old(session).clients()[i as int];
            let c1 = final(session).clients()[i as int];
            &&& c1.id == c0.id
            &&& c1.channel == c0.channel
            &&& match received {
                Ok(Some(ClientMessage::Inputs { at, .. })) if c0.state is Connected => {
                    &&& c1.next_update_step == at.next_update_step
                    &&& c1.last_input_step >= c0.last_input_step
                    &&& c1.last_input_step >= at.step
                    &&& c1.last_input_step == c0.last_input_step || c1.last_input_step == at.step
                    &&& c1.state == c0.state
                },
                _ => {
                    &&& c1.next_update_step == c0.next_update_step
                    &&& c1.last_input_step == c0.last_input_step
                },
            }
            &&& match received {
                Err(_) => c1.state is Disconnected,
                Ok(Some(ClientMessage::Connect { .. })) => if c0.state is Pending {
                    c1.state is Pending
                } else {
                    c1.state is Disconnected
                },
                _ => c1.state == c0.state,
            }
        }),
        forall|id: ClientId| #[trigger]
            sight_goes_on(
                *old(session),
                *final(session),
                id,
                taken_of(old(session).clients()[i as int], received, id),
            ),
{
    assert forall|id: ClientId| #[trigger]
        sight_goes_on(
            *old(session),
            *final(session),
            id,
            taken_of(old(session).clients()[i as int], received, id),
        ) by {
        assert forall|k: int|
            0 <= k < final(session).clients().len() && (#[trigger] final(session).clients()[k]).id
                == id implies exists|j: int|
            {
                &&& 0 <= j < old(session).clients().len()
                &&& (#[trigger] old(session).clients()[j]).id == id
                &&& final(session).clients()[k].next_update_step == (match taken_of(
                    old(session).clients()[i as int],
                    received,
                    id,
                ) {
                    Some(next) => next,
                    None => old(session).clients()[j].next_update_step,
                })
            } by {
            assert(old(session).clients()[k].id == id);
            assert(k != i ==> old(session).clients()[i as int].id != id);
        }
    }
}

/// A new client has the next id, waits to be connected, and has neither sent inputs nor seen an
/// update. The clients before it stay.
pub proof fn new_clients_have_seen_nothing<C, L>(session: &mut ServerSession<C, L>, channel: C)
    requires
        call_ensures(ServerSession::<C, L>::accept, (session, channel), ()),
    ensures
        final(session).source() == old(session).source(),
        final(session).step() == old(session).step(),
        final(session).next_client_id() == old(session).next_client_id() + 1,
        final(session).clients().len() == old(session).clients().len() + 1,
        forall|j: int|
            0 <= j < old(session).clients().len() ==> #[trigger] final(session).clients()[j]
                == old(session).clients()[j],
        ({
            let client = final(session).clients()[old(session).clients().len() as int];
            &&& client.id == ClientId(old(session).next_client_id())
            &&& client.state is Pending
            &&& client.last_input_step == 0
            &&& client.next_update_step == 0
            &&& client.channel == channel
        }),
{
}

/// To connect a client changes its state and nothing else: it has seen no more than before. It is
/// told the step at which it asked. No other client changes, and where the client is gone nothing
/// does.
pub proof fn connecting_changes_the_state_alone<C, L, J, U>(
    event: ClientConnectEvent,
    session: &mut ServerSession<C, L>,
    message: Option<ServerMessage<Connected, J, U>>,
)
    requires
        old(session).wf(),
        call_ensures(ClientConnectEvent::accept::<C, L, J, U>, (event, session), message),
    ensures
        final(session).source() == old(session).source(),
        final(session).step() == old(session).step(),
        final(session).next_client_id() == old(session).next_client_id(),
        final(session).clients().len() == old(session).clients().len(),
        forall|j: int|
            0 <= j < old(session).clients().len() ==> {
                let c0 = old(session).clients()[j];
                let c1 = #[trigger] final(session).clients()[j];
                &&& c1.id == c0.id
                &&& c1.channel == c0.channel
                &&& c1.last_input_step == c0.last_input_step
                &&& c1.next_update_step == c0.next_update_step
                &&& c0.id == event.asker() ==> c1.state is Connected
                &&& c0.id != event.asker() ==> c1.state == c0.state
            },
        message is Some <==> exists|j: int|
            0 <= j < old(session).clients().len() && (#[trigger] old(session).clients()[j]).id
                == event.asker(),
        message matches Some(message) ==> (message matches ServerMessage::Connected(hello)
            && hello.step == event.asked_at()),
        forall|id: ClientId| #[trigger] sight_goes_on(*old(session), *final(session), id, None),
{
    assert forall|id: ClientId| #[trigger] sight_goes_on(
        *old(session),
        *final(session),
        id,
        None,
    ) by {
        lemma_sight_stays(*old(session), *final(session), id);
    }
    let clients = old(session).clients();
    if let Some(i) = server::position(clients, event.asker()) {
        assert(clients[i].id == event.asker());
        assert forall|j: int| 0 <= j < clients.len() && j != i implies (#[trigger] clients[j]).id
            != event.asker() by {
        }
    }
}

/// A step later every client is what it was, but those that could not be reached are disconnected.
pub proof fn a_step_keeps_the_clients<C, L>(session: &mut ServerSession<C, L>, failed: Vec<usize>)
    requires
        old(session).clients().len() <= usize::MAX,
        call_ensures(ServerSession::<C, L>::advance, (session, &failed), ()),
    ensures
        final(session).source() == old(session).source(),
        final(session).step() == old(session).step() + 1,
        final(session).next_client_id() == old(session).next_client_id(),
        final(session).clients().len() == old(session).clients().len(),
        forall|j: int|
            0 <= j < old(session).clients().len() ==> {
                let c0 = old(session).clients()[j];
                let c1 = #[trigger] final(session).clients()[j];
                &&& c1.id == c0.id
                &&& c1.channel == c0.channel
                &&& c1.last_input_step == c0.last_input_step
                &&& c1.next_update_step == c0.next_update_step
                &&& (exists|k: int| 0 <= k < failed@.len() && #[trigger] failed@[k] == j)
                    ==> c1.state is Disconnected
                &&& !(exists|k: int| 0 <= k < failed@.len() && #[trigger] failed@[k] == j)
                    ==> c1.state == c0.state
            },
        forall|id: ClientId| #[trigger] sight_goes_on(*old(session), *final(session), id, None),
{
    assert forall|id: ClientId| #[trigger] sight_goes_on(
        *old(session),
        *final(session),
        id,
        None,
    ) by {
        lemma_sight_stays(*old(session), *final(session), id);
    }
    assert forall|j: int| 0 <= j < old(session).clients().len() implies {
        let c0 = old(session).clients()[j];
        let c1 = #[trigger] final(session).clients()[j];
        &&& c1.id == c0.id
        &&& c1.channel == c0.channel
        &&& c1.last_input_step == c0.last_input_step
        &&& c1.next_update_step == c0.next_update_step
        &&& (exists|k: int| 0 <= k < failed@.len() && #[trigger] failed@[k] == j)
            ==> c1.state is Disconnected
        &&& !(exists|k: int| 0 <= k < failed@.len() && #[trigger] failed@[k] == j) ==> c1.state
            == c0.state
    } by {
        let u: usize = j as usize;
        if exists|k: int| 0 <= k < failed@.len() && #[trigger] failed@[k] == j {
            let k = choose|k: int| 0 <= k < failed@.len() && #[trigger] failed@[k] == j;
            assert(failed@[k] == u);
            assert(failed@.contains(u));
        }
        if failed@.contains(u) {
            let k = choose|k: int| 0 <= k < failed@.len() && failed@[k] == u;
            assert(failed@[k] == j);
        }
    }
}

/// Exactly the clients that are disconnected are dropped; the others stay as they are, in their
/// order.
pub proof fn the_others_stay<C, L>(session: &mut ServerSession<C, L>)
    requires
        old(session).wf(),
        call_ensures(ServerSession::<C, L>::drop_disconnected, (session,), ()),
    ensures
        final(session).source() == old(session).source(),
        final(session).step() == old(session).step(),
        final(session).next_client_id() == old(session).next_client_id(),
        forall|client: Client<C>| #[trigger]
            final(session).clients().contains(client) <==> old(session).clients().contains(client)
                && !(client.state is Disconnected),
        forall|i: int, j: int|
            0 <= i < j < final(session).clients().len()
                ==> (#[trigger] final(session).clients()[i]).id.0
                < (#[trigger] final(session).clients()[j]).id.0,
{
    server::disconnected_are_dropped(old(session).clients());
}

/// A new session has no clients, is at step zero, and gives its first client the id one.
pub proof fn sessions_start_empty<C, L>(listener: L, session: ServerSession<C, L>)
    requires
        call_ensures(ServerSession::<C, L>::new, (listener,), session),
    ensures
        session.source() == listener,
        session.step() == 0,
        session.clients().len() == 0,
        session.next_client_id() == 1,
{
}

/// What the client `id` has seen goes from `s0` to `s1` as `told` tells: it is what the inputs told
/// that were taken of it meanwhile, if any were, or what it was. A client that is new has seen
/// nothing.
pub open spec fn sight_goes_on<C, L>(
    s0: ServerSession<C, L>,
    s1: ServerSession<C, L>,
    id: ClientId,
    told: Option<u64>,
) -> bool {
    forall|i: int|
        0 <= i < s1.clients().len() && (#[trigger] s1.clients()[i]).id == id ==> {
            ||| told is None && s1.clients()[i].next_update_step == 0 && s0.next_client_id()
                <= id.0
            ||| exists|j: int|
                {
                    &&& 0 <= j < s0.clients().len()
                    &&& (#[trigger] s0.clients()[j]).id == id
                    &&& s1.clients()[i].next_update_step == (match told {
                        Some(next) => next,
                        None => s0.clients()[j].next_update_step,
                    })
                }
        }
}

/// What a client has seen is zero until inputs are taken of it, and from then on what the last of
/// them told: whatever else happens to the session. `told` are those, in order, for each pair of
/// successive states.
pub proof fn sight_is_what_was_told<C, L>(
    states: Seq<ServerSession<C, L>>,
    id: ClientId,
    told: Seq<Option<u64>>,
    i: int,
)
    requires
        states.len() == told.len() + 1,
        states[0].clients().len() == 0,
        forall|k: int|
            0 <= k < told.len() ==> sight_goes_on(
                states[k],
                states[k + 1],
                id,
                #[trigger] told[k],
            ),
        forall|k: int|
            0 <= k < told.len() ==> (#[trigger] told[k] is Some ==> exists|j: int|
                0 <= j < states[k].clients().len() && (#[trigger] states[k].clients()[j]).id == id),
        forall|k: int, j: int|
            0 <= k < states.len() && 0 <= j < states[k].clients().len() ==> (#[trigger]
            states[k].clients()[j]).id.0 < states[k].next_client_id(),
        forall|k: int|
            0 <= k < told.len() ==> (#[trigger] states[k]).next_client_id() <= states[k
                + 1].next_client_id(),
        0 <= i < states.last().clients().len(),
        states.last().clients()[i].id == id,
    ensures
        (forall|k: int| 0 <= k < told.len() ==> #[trigger] told[k] is None)
            ==> states.last().clients()[i].next_update_step == 0,
        forall|last: int|
            0 <= last < told.len() && #[trigger] told[last] is Some && (forall|k: int|
                last < k < told.len() ==> #[trigger] told[k] is None)
                ==> states.last().clients()[i].next_update_step == told[last]->Some_0,
    decreases told.len(), 1nat,
{
    let n = told.len() - 1;
    if told.len() > 0 {
        let s0 = states[n];
        let s1 = states[n + 1];
        assert(sight_goes_on(s0, s1, id, told[n]));
        assert(s1.clients()[i].id == id);
        assert forall|last: int|
            0 <= last < told.len() && #[trigger] told[last] is Some && (forall|k: int|
                last < k < told.len() ==> #[trigger] told[k] is None) implies (told[n] is Some
            ==> last == n) by {
            if told[n] is Some && last < n {
                assert(told[n] is None);
            }
        }
        if told[n] is None {
            if exists|j: int|
                {
                    &&& 0 <= j < s0.clients().len()
                    &&& (#[trigger] s0.clients()[j]).id == id
                    &&& s1.clients()[i].next_update_step == s0.clients()[j].next_update_step
                } {
                let j = choose|j: int|
                    {
                        &&& 0 <= j < s0.clients().len()
                        &&& (#[trigger] s0.clients()[j]).id == id
                        &&& s1.clients()[i].next_update_step == s0.clients()[j].next_update_step
                    };
                lemma_sight_before(states, id, told, j);
                let before = states.drop_last();
                let earlier = told.drop_last();
                assert(before.last() == s0);
                assert forall|last: int|
                    0 <= last < told.len() && #[trigger] told[last] is Some && (forall|k: int|
                        last < k < told.len() ==> #[trigger] told[k] is None) implies
                    s1.clients()[i].next_update_step == told[last]->Some_0 by {
                    assert(earlier[last] is Some);
                    assert forall|k: int| last < k < earlier.len() implies #[trigger] earlier[k] is
                        None by {
                        assert(told[k] is None);
                    }
                }
                if forall|k: int| 0 <= k < told.len() ==> #[trigger] told[k] is None {
                    assert forall|k: int| 0 <= k < earlier.len() implies #[trigger] earlier[k] is
                        None by {
                        assert(told[k] is None);
                    }
                }
            } else {
                lemma_none_told(states, id, told, n);
            }
        }
    }
}

/// What was told before the last state.
proof fn lemma_sight_before<C, L>(
    states: Seq<ServerSession<C, L>>,
    id: ClientId,
    told: Seq<Option<u64>>,
    j: int,
)
    requires
        states.len() == told.len() + 1,
        states[0].clients().len() == 0,
        forall|k: int|
            0 <= k < told.len() ==> sight_goes_on(
                states[k],
                states[k + 1],
                id,
                #[trigger] told[k],
            ),
        forall|k: int|
            0 <= k < told.len() ==> (#[trigger] told[k] is Some ==> exists|j: int|
                0 <= j < states[k].clients().len() && (#[trigger] states[k].clients()[j]).id == id),
        forall|k: int, j: int|
            0 <= k < states.len() && 0 <= j < states[k].clients().len() ==> (#[trigger]
            states[k].clients()[j]).id.0 < states[k].next_client_id(),
        forall|k: int|
            0 <= k < told.len() ==> (#[trigger] states[k]).next_client_id() <= states[k
                + 1].next_client_id(),
        told.len() > 0,
        0 <= j < states[told.len() - 1].clients().len(),
        states[told.len() - 1].clients()[j].id == id,
    ensures
        ({
            let seen = states[told.len() - 1].clients()[j].next_update_step;
            let earlier = told.drop_last();
            &&& (forall|k: int| 0 <= k < earlier.len() ==> #[trigger] earlier[k] is None) ==> seen
                == 0
            &&& forall|last: int|
                0 <= last < earlier.len() && #[trigger] earlier[last] is Some && (forall|k: int|
                    last < k < earlier.len() ==> #[trigger] earlier[k] is None) ==> seen
                    == earlier[last]->Some_0
        }),
    decreases told.len(), 0nat,
{
    let before = states.drop_last();
    let earlier = told.drop_last();
    assert forall|k: int| 0 <= k < earlier.len() implies sight_goes_on(
        before[k],
        before[k + 1],
        id,
        #[trigger] earlier[k],
    ) by {
        assert(earlier[k] == told[k]);
    }
    assert forall|k: int| 0 <= k < earlier.len() implies (#[trigger] earlier[k] is Some
        ==> exists|j: int|
        0 <= j < before[k].clients().len() && (#[trigger] before[k].clients()[j]).id == id) by {
        assert(earlier[k] == told[k]);
        assert(before[k] == states[k]);
    }
    assert forall|k: int, j: int|
        0 <= k < before.len() && 0 <= j < before[k].clients().len() implies (#[trigger]
    before[k].clients()[j]).id.0 < before[k].next_client_id() by {
        assert(before[k] == states[k]);
        assert(states[k].clients()[j].id.0 < states[k].next_client_id());
    }
    assert forall|k: int| 0 <= k < earlier.len() implies (#[trigger] before[k]).next_client_id()
        <= before[k + 1].next_client_id() by {
        assert(before[k] == states[k]);
        assert(states[k].next_client_id() <= states[k + 1].next_client_id());
    }
    sight_is_what_was_told(before, id, earlier, j);
}

/// Nothing was told of a client that had no id yet.
proof fn lemma_none_told<C, L>(
    states: Seq<ServerSession<C, L>>,
    id: ClientId,
    told: Seq<Option<u64>>,
    n: int,
)
    requires
        states.len() == told.len() + 1,
        n == told.len() - 1,
        n >= 0,
        told[n] is None,
        states[n].next_client_id() <= id.0,
        forall|k: int|
            0 <= k < told.len() ==> (#[trigger] told[k] is Some ==> exists|j: int|
                0 <= j < states[k].clients().len() && (#[trigger] states[k].clients()[j]).id == id),
        forall|k: int, j: int|
            0 <= k < states.len() && 0 <= j < states[k].clients().len() ==> (#[trigger]
            states[k].clients()[j]).id.0 < states[k].next_client_id(),
        forall|k: int|
            0 <= k < told.len() ==> (#[trigger] states[k]).next_client_id() <= states[k
                + 1].next_client_id(),
    ensures
        !(exists|k: int| 0 <= k < told.len() && #[trigger] told[k] is Some),
{
    assert forall|k: int| 0 <= k < told.len() implies #[trigger] told[k] is None by {
        if told[k] is Some {
            let j = choose|j: int|
                0 <= j < states[k].clients().len() && (#[trigger] states[k].clients()[j]).id == id;
            lemma_ids_grow(states, k, n);
            assert(states[k].clients()[j].id.0 < states[k].next_client_id());
        }
    }
}

proof fn lemma_ids_grow<C, L>(states: Seq<ServerSession<C, L>>, a: int, b: int)
    requires
        0 <= a <= b < states.len(),
        forall|k: int|
            0 <= k < states.len() - 1 ==> (#[trigger] states[k]).next_client_id() <= states[k
                + 1].next_client_id(),
    ensures
        states[a].next_client_id() <= states[b].next_client_id(),
    decreases b - a,
{
    if a < b {
        lemma_ids_grow(states, a, b - 1);
        assert(states[b - 1].next_client_id() <= states[b - 1 + 1].next_client_id());
    }
}

/// Of the inputs of an event exactly those that name a player come out, in their order, as they
/// were sent.
pub proof fn inputs_of_players_come_out<I>(event: InputsEvent<I>, inputs: Vec<(PlayerId, &I)>)
    requires
        call_ensures(InputsEvent::<I>::inputs, (&event,), inputs),
    ensures
        inputs@.len() == event.sent().filter(
            |input: (Option<PlayerId>, I)| input.0 is Some,
        ).len(),
        forall|k: int|
            0 <= k < inputs@.len() ==> {
                let sent = event.sent().filter(
                    |input: (Option<PlayerId>, I)| input.0 is Some,
                )[k];
                &&& sent.0 == Some((#[trigger] inputs@[k]).0)
                &&& sent.1 == *inputs@[k].1
            },
{
    let named = |input: (PlayerId, &I)| (input.0, *input.1);
    assert(inputs@.map_values(named) == server::of_players(event.sent()));
    of_players_are_named(event.sent());
    assert forall|k: int| 0 <= k < inputs@.len() implies {
        let sent = event.sent().filter(|input: (Option<PlayerId>, I)| input.0 is Some)[k];
        &&& sent.0 == Some((#[trigger] inputs@[k]).0)
        &&& sent.1 == *inputs@[k].1
    } by {
        assert(inputs@.map_values(named)[k] == named(inputs@[k]));
    }
}

/// The inputs of players are those that name one, in their order.
pub proof fn of_players_are_named<I>(sent: Seq<(Option<PlayerId>, I)>)
    ensures
        server::of_players(sent).len() == sent.filter(
            |input: (Option<PlayerId>, I)| input.0 is Some,
        ).len(),
        forall|k: int|
            0 <= k < server::of_players(sent).len() ==> {
                let input = sent.filter(|input: (Option<PlayerId>, I)| input.0 is Some)[k];
                &&& input.0 == Some((#[trigger] server::of_players(sent)[k]).0)
                &&& input.1 == server::of_players(sent)[k].1
            },
    decreases sent.len(),
{
    reveal(Seq::filter);
    if sent.len() > 0 {
        of_players_are_named(sent.drop_last());
    }
}

/// Where each client of `s1` is the one at its place in `s0`, and has seen what that has, nothing
/// was told.
proof fn lemma_sight_stays<C, L>(s0: ServerSession<C, L>, s1: ServerSession<C, L>, id: ClientId)
    requires
        s1.clients().len() == s0.clients().len(),
        forall|j: int|
            0 <= j < s0.clients().len() ==> {
                &&& (#[trigger] s1.clients()[j]).id == s0.clients()[j].id
                &&& s1.clients()[j].next_update_step == s0.clients()[j].next_update_step
            },
    ensures
        sight_goes_on(s0, s1, id, None),
{
    assert forall|k: int|
        0 <= k < s1.clients().len() && (#[trigger] s1.clients()[k]).id == id implies exists|j: int|
        {
            &&& 0 <= j < s0.clients().len()
            &&& (#[trigger] s0.clients()[j]).id == id
            &&& s1.clients()[k].next_update_step == s0.clients()[j].next_update_step
        } by {
        assert(s0.clients()[k].id == id);
    }
}

/// A new client has seen nothing, and no other has seen more or less for it.
pub proof fn arrivals_have_seen_nothing<C, L>(
    session: &mut ServerSession<C, L>,
    channel: C,
    id: ClientId,
)
    requires
        call_ensures(ServerSession::<C, L>::accept, (session, channel), ()),
    ensures
        sight_goes_on(*old(session), *final(session), id, None),
{
    let s0 = *old(session);
    let s1 = *final(session);
    assert forall|k: int|
        0 <= k < s1.clients().len() && (#[trigger] s1.clients()[k]).id == id implies {
        ||| s1.clients()[k].next_update_step == 0 && s0.next_client_id() <= id.0
        ||| exists|j: int|
            {
                &&& 0 <= j < s0.clients().len()
                &&& (#[trigger] s0.clients()[j]).id == id
                &&& s1.clients()[k].next_update_step == s0.clients()[j].next_update_step
            }
    } by {
        if k < s0.clients().len() {
            assert(s0.clients()[k].id == id);
        }
    }
}

/// To drop clients changes nothing of what the others have seen.
pub proof fn those_left_have_seen_the_same<C, L>(session: &mut ServerSession<C, L>, id: ClientId)
    requires
        old(session).wf(),
        call_ensures(ServerSession::<C, L>::drop_disconnected, (session,), ()),
    ensures
        sight_goes_on(*old(session), *final(session), id, None),
{
    let s0 = *old(session);
    let s1 = *final(session);
    the_others_stay(session);
    assert forall|k: int|
        0 <= k < s1.clients().len() && (#[trigger] s1.clients()[k]).id == id implies exists|j: int|
        {
            &&& 0 <= j < s0.clients().len()
            &&& (#[trigger] s0.clients()[j]).id == id
            &&& s1.clients()[k].next_update_step == s0.clients()[j].next_update_step
        } by {
        assert(s1.clients().contains(s1.clients()[k]));
        let j = choose|j: int| 0 <= j < s0.clients().len() && s0.clients()[j] == s1.clients()[k];
        assert(s0.clients()[j].id == id);
    }
}

/// What a session tells of itself is what it is: its step, how many clients it has, where each
/// stands, whether another can come, and whether all of them are in time.
pub proof fn sessions_tell_what_they_are<C, L>(
    session: ServerSession<C, L>,
    step: u64,
    len: usize,
    id: ClientId,
    found: Option<usize>,
    more: bool,
    in_time: bool,
)
    requires
        session.wf(),
        call_ensures(ServerSession::<C, L>::current_step, (&session,), step),
        call_ensures(ServerSession::<C, L>::len, (&session,), len),
        call_ensures(ServerSession::<C, L>::position, (&session, id), found),
        call_ensures(ServerSession::<C, L>::has_id, (&session,), more),
        call_ensures(ServerSession::<C, L>::is_in_time, (&session,), in_time),
    ensures
        step == session.step(),
        len == session.clients().len(),
        found matches Some(i) ==> i < session.clients().len() && session.clients()[i as int].id
            == id,
        found is None ==> forall|i: int|
            0 <= i < session.clients().len() ==> (#[trigger] session.clients()[i]).id != id,
        more <==> session.next_client_id() < 0xFFFF_FFFF_FFFF_FFFF,
        in_time <==> forall|i: int|
            0 <= i < session.clients().len() && (#[trigger] session.clients()[i]).state is Connected
                ==> session.clients()[i].next_update_step <= session.step(),
{
    if let Some(i) = found {
        let k = server::position(session.clients(), id)->Some_0;
        assert(session.clients()[k].id == id);
    } else {
        assert forall|i: int| 0 <= i < session.clients().len() implies (#[trigger]
        session.clients()[i]).id != id by {
            if session.clients()[i].id == id {
                assert(server::position(session.clients(), id) is Some);
            }
        }
    }
}

/// To use a client's channel changes nothing else of the session.
pub proof fn channels_can_be_used<C, L>(
    session: &mut ServerSession<C, L>,
    i: usize,
    channel: &mut C,
)
    requires
        i < old(session).clients().len(),
        call_ensures(ServerSession::<C, L>::channel, (session, i), channel),
    ensures
        *old(channel) == old(session).clients()[i as int].channel,
        final(session).step() == old(session).step(),
        final(session).next_client_id() == old(session).next_client_id(),
        final(session).clients().len() == old(session).clients().len(),
        forall|j: int|
            0 <= j < old(session).clients().len() && j != i
                ==> #[trigger] final(session).clients()[j] == old(session).clients()[j],
        ({
            let c0 = old(session).clients()[i as int];
            let c1 = final(session).clients()[i as int];
            &&& c1.channel == *final(channel)
            &&& c1.id == c0.id
            &&& c1.state == c0.state
            &&& c1.last_input_step == c0.last_input_step
            &&& c1.next_update_step == c0.next_update_step
        }),
{
}

/// A player that is accepted is answered with just the info that is given, or that is made of what
/// the client told.
pub proof fn accepted_players_are_answered<
    P,
    J,
    U,
    E,
    F: FnOnce(P) -> J,
    G: FnOnce(P) -> Result<J, E>,
>(
    event: AddPlayerEvent<P>,
    info: J,
    told: &P,
    answer: ServerMessage<Connected, J, U>,
    f: F,
    made: ServerMessage<Connected, J, U>,
    g: G,
    tried: Result<ServerMessage<Connected, J, U>, E>,
)
    requires
        call_ensures(AddPlayerEvent::<P>::player, (&event,), told),
        call_ensures(AddPlayerEvent::<P>::accept::<J, U>, (event, info), answer),
        call_ensures(AddPlayerEvent::<P>::accept_with::<J, U, F>, (event, f), made),
        call_ensures(AddPlayerEvent::<P>::try_accept_with::<J, U, E, G>, (event, g), tried),
    ensures
        *told == event.description(),
        answer == (ServerMessage::<Connected, J, U>::PlayerJoined { info }),
        made matches ServerMessage::PlayerJoined { info: out } && call_ensures(
            f,
            (event.description(),),
            out,
        ),
        tried matches Ok(message) ==> (message matches ServerMessage::PlayerJoined { info: out }
            && call_ensures(g, (event.description(),), Ok(out))),
        tried matches Err(err) ==> call_ensures(g, (event.description(),), Err(err)),
{
}

/// Inputs tell the step at which they were sent.
pub proof fn inputs_tell_their_step<I>(event: InputsEvent<I>, step: u64)
    requires
        call_ensures(InputsEvent::<I>::step, (&event,), step),
    ensures
        step == event.sent_at(),
{
}

/// To use the source of clients changes nothing else of the session.
pub proof fn listeners_can_be_used<C, L>(session: &mut ServerSession<C, L>, listener: &mut L)
    requires
        call_ensures(ServerSession::<C, L>::listener, (session,), listener),
    ensures
        *old(listener) == old(session).source(),
        *final(listener) == final(session).source(),
        final(session).step() == old(session).step(),
        final(session).clients() == old(session).clients(),
        final(session).next_client_id() == old(session).next_client_id(),
{
}

} // verus!
