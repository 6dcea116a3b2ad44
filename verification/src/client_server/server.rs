//! Server side of sessions: many clients, each with a channel of its own.

use crate::client_server::{ClientId, ClientMessage, Connected, InputStep, PlayerId, ServerMessage};
use vstd::prelude::*;

verus! {

/// What went wrong in a server session.
#[derive(Debug, PartialEq, Eq)]
pub enum ServerError<E> {
    /// The channel failed.
    ChannelError { source: E },
    /// The client sent a message that is out of place.
    UnexpectedMessage,
}

/// How far a client has got.
#[derive(Clone, Copy, Debug, PartialEq, Eq, Structural)]
pub enum ClientState {
    /// It has not asked to be connected, or was not accepted yet.
    Pending,
    /// It was accepted.
    Connected,
    /// Its channel failed or it broke the rules. It goes before the next events.
    Disconnected,
}

/// A client of a session.
pub struct Client<C> {
    /// Tells the client from all others that the session ever had.
    pub id: ClientId,
    /// How far it has got.
    pub state: ClientState,
    /// The step of the last inputs that were taken from it.
    pub last_input_step: u64,
    /// The first step that it has not seen an update of, as far as it has told.
    pub next_update_step: u64,
    /// The channel to it.
    pub channel: C,
}

/// What a client did.
#[derive(Debug, PartialEq, Eq)]
pub enum Event<P, I> {
    ClientConnect(ClientConnectEvent),
    AddPlayer(AddPlayerEvent<P>),
    Inputs(InputsEvent<I>),
    Disconnected,
}

/// A client asks to be connected.
#[derive(Clone, Copy, Debug, PartialEq, Eq, Structural)]
pub struct ClientConnectEvent {
    client: ClientId,
    current_step: u64,
}

/// A client asks to add a player.
#[derive(Debug, PartialEq, Eq)]
pub struct AddPlayerEvent<P> {
    client: ClientId,
    player: P,
}

/// A client sends inputs of its players.
#[derive(Debug, PartialEq, Eq)]
pub struct InputsEvent<I> {
    inputs: Vec<(Option<PlayerId>, I)>,
    step: u64,
}

impl ClientConnectEvent {
    /// The client that asks.
    pub closed spec fn asker(self) -> ClientId {
        self.client
    }

    /// The server's step when it asked.
    pub closed spec fn asked_at(self) -> u64 {
        self.current_step
    }

    /// Connects the client. Gives what is sent to it; `None` where the session has no such client.
    pub fn accept<C, L, J, U>(self, session: &mut ServerSession<C, L>) -> (message: Option<
        ServerMessage<Connected, J, U>,
    >)
        requires
            old(session).wf(),
        ensures
            final(session).wf(),
            connected(*old(session), *final(session), self, message),
    {
        match session.position(self.client) {
            Some(i) => {
                session.set_state(i, ClientState::Connected);
                Some(ServerMessage::Connected(Connected { step: self.current_step }))
            },
            None => None,
        }
    }
}

impl<P> AddPlayerEvent<P> {
    /// The client that asks.
    pub closed spec fn asker(self) -> ClientId {
        self.client
    }

    /// What the client tells of the player.
    pub closed spec fn description(self) -> P {
        self.player
    }

    /// What the client tells of the player.
    pub fn player(&self) -> (player: &P)
        ensures
            *player == self.description(),
    {
        &self.player
    }

    /// Adds the player. Gives what is sent to the client.
    pub fn accept<J, U>(self, info: J) -> (message: ServerMessage<Connected, J, U>)
        ensures
            message == (ServerMessage::<Connected, J, U>::PlayerJoined { info }),
    {
        ServerMessage::PlayerJoined { info }
    }

    /// Adds the player with the info that `f` makes of it. Gives what is sent to the client.
    pub fn accept_with<J, U, F: FnOnce(P) -> J>(self, f: F) -> (message: ServerMessage<
        Connected,
        J,
        U,
    >)
        requires
            call_requires(f, (self.description(),)),
        ensures
            message is PlayerJoined,
            call_ensures(f, (self.description(),), message->info),
    {
        let info = f(self.player);
        ServerMessage::PlayerJoined { info }
    }

    /// Adds the player with the info that `f` makes of it, unless `f` refuses. Gives what is sent
    /// to the client.
    pub fn try_accept_with<J, U, E, F: FnOnce(P) -> Result<J, E>>(self, f: F) -> (message: Result<
        ServerMessage<Connected, J, U>,
        E,
    >)
        requires
            call_requires(f, (self.description(),)),
        ensures
            match message {
                Ok(message) => {
                    &&& message is PlayerJoined
                    &&& call_ensures(f, (self.description(),), Ok(message->info))
                },
                Err(err) => call_ensures(f, (self.description(),), Err(err)),
            },
    {
        match f(self.player) {
            Ok(info) => Ok(ServerMessage::PlayerJoined { info }),
            Err(err) => Err(err),
        }
    }
}

/// Those of `inputs` that name a player, in their order.
pub open spec fn of_players<I>(inputs: Seq<(Option<PlayerId>, I)>) -> Seq<(PlayerId, I)>
    decreases inputs.len(),
{
    if inputs.len() == 0 {
        Seq::empty()
    } else {
        match inputs.last().0 {
            Some(pid) => of_players(inputs.drop_last()).push((pid, inputs.last().1)),
            None => of_players(inputs.drop_last()),
        }
    }
}

impl<I> InputsEvent<I> {
    /// The inputs as they came.
    pub closed spec fn sent(self) -> Seq<(Option<PlayerId>, I)> {
        self.inputs@
    }

    /// The client's step at which it sent them.
    pub closed spec fn sent_at(self) -> u64 {
        self.step
    }

    /// The inputs that name a player, in their order.
    pub fn inputs(&self) -> (inputs: Vec<(PlayerId, &I)>)
        ensures
            inputs@.map_values(|input: (PlayerId, &I)| (input.0, *input.1)) == of_players(
                self.sent(),
            ),
    {
        let ghost start = self.inputs@;
        let ghost named = |input: (PlayerId, &I)| (input.0, *input.1);
        let mut inputs: Vec<(PlayerId, &I)> = Vec::new();
        assert(start.take(0) =~= Seq::empty());
        assert(inputs@.map_values(named) =~= Seq::empty());
        for i in 0..self.inputs.len()
            invariant
                start == self.inputs@,
                named == (|input: (PlayerId, &I)| (input.0, *input.1)),
                inputs@.map_values(named) == of_players(start.take(i as int)),
        {
            let ghost before = inputs@;
            assert(start.take(i + 1).drop_last() =~= start.take(i as int));
            let input = &self.inputs[i];
            if let Some(pid) = input.0 {
                inputs.push((pid, &input.1));
                assert(inputs@.map_values(named) =~= before.map_values(named).push(
                    (pid, input.1),
                ));
            }
        }
        assert(start.take(start.len() as int) =~= start);
        inputs
    }

    /// The client's step at which it sent them.
    pub fn step(&self) -> (step: u64)
        ensures
            step == self.sent_at(),
    {
        self.step
    }
}

/// Where in `clients` the one with `id` stands.
pub open spec fn position<C>(clients: Seq<Client<C>>, id: ClientId) -> Option<int> {
    if exists|i: int| 0 <= i < clients.len() && (#[trigger] clients[i]).id == id {
        Some(choose|i: int| 0 <= i < clients.len() && (#[trigger] clients[i]).id == id)
    } else {
        None
    }
}

/// `client` in another state.
pub open spec fn with_state<C>(client: Client<C>, state: ClientState) -> Client<C> {
    Client { state, ..client }
}

/// `s1` is the session `s0` after the client that asked for it was connected, where there is such a
/// client. `message` is what is sent to it.
pub open spec fn connected<C, L, J, U>(
    s0: ServerSession<C, L>,
    s1: ServerSession<C, L>,
    event: ClientConnectEvent,
    message: Option<ServerMessage<Connected, J, U>>,
) -> bool {
    &&& s1.same_but_clients(s0)
    &&& match position(s0.clients(), event.asker()) {
        Some(i) => {
            &&& message == Some(
                ServerMessage::<Connected, J, U>::Connected(Connected { step: event.asked_at() }),
            )
            &&& s1.clients() == s0.clients().update(
                i,
                with_state(s0.clients()[i], ClientState::Connected),
            )
        },
        None => message is None && s1.clients() == s0.clients(),
    }
}

/// Those of `clients` that are not disconnected, in their order.
pub open spec fn remaining<C>(clients: Seq<Client<C>>) -> Seq<Client<C>>
    decreases clients.len(),
{
    if clients.len() == 0 {
        Seq::empty()
    } else if clients.last().state is Disconnected {
        remaining(clients.drop_last())
    } else {
        remaining(clients.drop_last()).push(clients.last())
    }
}

/// What becomes of `client` when `received` came through its channel.
pub open spec fn after<C, P, I, E>(
    client: Client<C>,
    received: Result<Option<ClientMessage<InputStep, P, I>>, E>,
) -> Client<C> {
    match received {
        Ok(Some(ClientMessage::Connect { .. })) => if client.state is Pending {
            client
        } else {
            with_state(client, ClientState::Disconnected)
        },
        Ok(Some(ClientMessage::Inputs { at, .. })) => if client.state is Connected {
            Client {
                next_update_step: at.next_update_step,
                last_input_step: if client.last_input_step <= at.step {
                    at.step
                } else {
                    client.last_input_step
                },
                ..client
            }
        } else {
            client
        },
        Ok(Some(ClientMessage::AddPlayer { .. })) => client,
        Ok(None) => client,
        Err(_) => with_state(client, ClientState::Disconnected),
    }
}

/// Whether `event` is what comes of `received` through the channel of `client`, at the server's
/// step `step`.
pub open spec fn reported<C, P, I, E>(
    client: Client<C>,
    step: u64,
    received: Result<Option<ClientMessage<InputStep, P, I>>, E>,
    event: Option<Event<P, I>>,
) -> bool {
    match received {
        Ok(Some(ClientMessage::Connect { .. })) => if client.state is Pending {
            event matches Some(Event::ClientConnect(event)) && event.asker() == client.id
                && event.asked_at() == step
        } else {
            event == Some(Event::<P, I>::Disconnected)
        },
        Ok(Some(ClientMessage::AddPlayer { player })) => if client.state is Connected {
            event matches Some(Event::AddPlayer(event)) && event.asker() == client.id
                && event.description() == player
        } else {
            event == Some(Event::<P, I>::Disconnected)
        },
        Ok(Some(ClientMessage::Inputs { at, inputs })) => if client.state is Connected {
            if client.last_input_step <= at.step {
                event matches Some(Event::Inputs(event)) && event.sent() == inputs@
                    && event.sent_at() == at.step
            } else {
                event is None
            }
        } else {
            event == Some(Event::<P, I>::Disconnected)
        },
        Ok(None) => event is None,
        Err(_) => event == Some(Event::<P, I>::Disconnected),
    }
}

/// The place of each connected client in `clients`, and how many steps before the current step is
/// the first that it has not seen an update of.
pub open spec fn due<C>(clients: Seq<Client<C>>, step: u64) -> Seq<(int, int)>
    decreases clients.len(),
{
    if clients.len() == 0 {
        Seq::empty()
    } else if clients.last().state is Connected {
        due(clients.drop_last(), step).push(
            (clients.len() - 1, step - clients.last().next_update_step),
        )
    } else {
        due(clients.drop_last(), step)
    }
}

/// `s1` is the session `s0` one step later. The clients at `failed` are disconnected.
pub open spec fn advanced<C, L>(
    s0: ServerSession<C, L>,
    s1: ServerSession<C, L>,
    failed: Seq<usize>,
) -> bool {
    &&& s1.source() == s0.source()
    &&& s1.next_client_id() == s0.next_client_id()
    &&& s1.step() == s0.step() + 1
    &&& s1.clients().len() == s0.clients().len()
    &&& forall|i: int|
        0 <= i < s0.clients().len() ==> #[trigger] s1.clients()[i] == (if failed.contains(
            i as usize,
        ) {
            with_state(s0.clients()[i], ClientState::Disconnected)
        } else {
            s0.clients()[i]
        })
}

/// A server's session with all its clients.
pub struct ServerSession<C, L> {
    listener: L,
    current_step: u64,
    clients: Vec<Client<C>>,
    next_client_id: u64,
}

impl<C, L> ServerSession<C, L> {
    /// Where clients come from.
    pub closed spec fn source(self) -> L {
        self.listener
    }

    /// The current step.
    pub closed spec fn step(self) -> u64 {
        self.current_step
    }

    /// The clients, in the order in which they came.
    pub closed spec fn clients(self) -> Seq<Client<C>> {
        self.clients@
    }

    /// The id of the next client.
    pub closed spec fn next_client_id(self) -> u64 {
        self.next_client_id
    }

    /// Each client's id is greater than those before it, and not zero; the next is greater still.
    pub open spec fn wf(self) -> bool {
        &&& forall|i: int, j: int|
            0 <= i < j < self.clients().len() ==> (#[trigger] self.clients()[i]).id.0 < (
            #[trigger] self.clients()[j]).id.0
        &&& forall|i: int|
            0 <= i < self.clients().len() ==> 0 < (#[trigger] self.clients()[i]).id.0
                < self.next_client_id()
        &&& self.next_client_id() > 0
    }

    /// All but the clients is as in `other`.
    pub open spec fn same_but_clients(self, other: Self) -> bool {
        &&& self.source() == other.source()
        &&& self.step() == other.step()
        &&& self.next_client_id() == other.next_client_id()
    }

    /// No connected client claims to have seen an update of a step that has not been.
    pub open spec fn in_time(self) -> bool {
        forall|i: int|
            0 <= i < self.clients().len() && (#[trigger] self.clients()[i]).state is Connected
                ==> self.clients()[i].next_update_step <= self.step()
    }

    /// Creates a session without clients, at step zero.
    pub fn new(listener: L) -> (session: Self)
        ensures
            session.wf(),
            session.source() == listener,
            session.step() == 0,
            session.clients() == Seq::<Client<C>>::empty(),
            session.next_client_id() == 1,
    {
        ServerSession { listener, current_step: 0, clients: Vec::new(), next_client_id: 1 }
    }

    /// The current step.
    pub fn current_step(&self) -> (step: u64)
        ensures
            step == self.step(),
    {
        self.current_step
    }

    /// Where clients come from.
    pub fn listener(&mut self) -> (listener: &mut L)
        ensures
            *listener == old(self).source(),
            final(self).source() == *final(listener),
            final(self).step() == old(self).step(),
            final(self).clients() == old(self).clients(),
            final(self).next_client_id() == old(self).next_client_id(),
    {
        &mut self.listener
    }

    /// How many clients there are.
    pub fn len(&self) -> (len: usize)
        ensures
            len == self.clients().len(),
    {
        self.clients.len()
    }

    /// The channel of the client at `i`.
    pub fn channel(&mut self, i: usize) -> (channel: &mut C)
        requires
            i < old(self).clients().len(),
        ensures
            *channel == old(self).clients()[i as int].channel,
            final(self).clients() == old(self).clients().update(
                i as int,
                (Client { channel: *final(channel), ..old(self).clients()[i as int] }),
            ),
            final(self).same_but_clients(*old(self)),
    {
        &mut self.clients[i].channel
    }

    /// Where the client with `id` stands.
    pub fn position(&self, id: ClientId) -> (found: Option<usize>)
        requires
            self.wf(),
        ensures
            match found {
                Some(i) => position(self.clients(), id) == Some(i as int) && i
                    < self.clients().len(),
                None => position(self.clients(), id) is None,
            },
    {
        for i in 0..self.clients.len()
            invariant
                self.wf(),
                forall|k: int| 0 <= k < i ==> (#[trigger] self.clients()[k]).id != id,
        {
            if self.clients[i].id == id {
                proof {
                    let k = position(self.clients(), id)->Some_0;
                    assert(self.clients()[i as int].id == id);
                    assert(self.clients()[k].id == id);
                }
                return Some(i);
            }
        }
        None
    }

    /// Puts the client at `i` in another state.
    fn set_state(&mut self, i: usize, state: ClientState)
        requires
            old(self).wf(),
            i < old(self).clients().len(),
        ensures
            final(self).wf(),
            final(self).same_but_clients(*old(self)),
            final(self).clients() == old(self).clients().update(
                i as int,
                with_state(old(self).clients()[i as int], state),
            ),
    {
        self.clients[i].state = state;
        assert(self.clients() =~= old(self).clients().update(
            i as int,
            with_state(old(self).clients()[i as int], state),
        ));
    }

    /// Drops the clients that are disconnected. To be called before channels are accepted and
    /// messages received.
    pub fn drop_disconnected(&mut self)
        requires
            old(self).wf(),
        ensures
            final(self).wf(),
            final(self).same_but_clients(*old(self)),
            final(self).clients() == remaining(old(self).clients()),
    {
        let mut clients: Vec<Client<C>> = Vec::new();
        std::mem::swap(&mut clients, &mut self.clients);
        let ghost start = clients@;
        assert(start.take(0) =~= Seq::empty());
        for client in it: clients.into_iter()
            invariant
                it.seq() == start,
                self.same_but_clients(*old(self)),
                self.clients@ == remaining(start.take(it.index() as int)),
        {
            let ghost n = it.index() as int;
            assert(start.take(n + 1).drop_last() =~= start.take(n));
            if client.state != ClientState::Disconnected {
                self.clients.push(client);
            }
        }
        assert(start.take(start.len() as int) =~= start);
        proof {
            lemma_remaining(start);
            assert forall|i: int, j: int| 0 <= i < j < self.clients().len() implies (#[trigger]
            self.clients()[i]).id.0 < (#[trigger] self.clients()[j]).id.0 by {
                let (a, b) = choose|a: int, b: int|
                    0 <= a < b < start.len() && start[a] == remaining(start)[i] && start[b]
                        == remaining(start)[j];
                assert(start[a].id.0 < start[b].id.0);
            }
            assert forall|i: int| 0 <= i < self.clients().len() implies 0 < (#[trigger]
            self.clients()[i]).id.0 < self.next_client_id() by {
                let a = choose|a: int| 0 <= a < start.len() && start[a] == remaining(start)[i];
                assert(start[a].id.0 < self.next_client_id());
            }
        }
    }

    /// Whether an id is left for another client.
    pub fn has_id(&self) -> (enough: bool)
        ensures
            enough == (self.next_client_id() < u64::MAX),
    {
        self.next_client_id < u64::MAX
    }

    /// Takes a new client in, with the channel to it.
    pub fn accept(&mut self, channel: C)
        requires
            old(self).wf(),
            old(self).next_client_id() < u64::MAX,
        ensures
            final(self).wf(),
            final(self).source() == old(self).source(),
            final(self).step() == old(self).step(),
            final(self).clients() == old(self).clients().push(
                (Client {
                    id: ClientId(old(self).next_client_id()),
                    state: ClientState::Pending,
                    last_input_step: 0,
                    next_update_step: 0,
                    channel,
                }),
            ),
            final(self).next_client_id() == old(self).next_client_id() + 1,
    {
        let client = Client {
            id: ClientId(self.next_client_id),
            state: ClientState::Pending,
            last_input_step: 0,
            next_update_step: 0,
            channel,
        };
        self.clients.push(client);
        self.next_client_id = self.next_client_id + 1;
    }

    /// Takes what came through the channel of the client at `i`. Gives what the client did, if
    /// anything.
    pub fn receive<P, I, E>(
        &mut self,
        i: usize,
        received: Result<Option<ClientMessage<InputStep, P, I>>, E>,
    ) -> (event: Option<(ClientId, Event<P, I>)>)
        requires
            old(self).wf(),
            i < old(self).clients().len(),
            !(old(self).clients()[i as int].state is Disconnected),
        ensures
            final(self).wf(),
            final(self).same_but_clients(*old(self)),
            final(self).clients() == old(self).clients().update(
                i as int,
                after(old(self).clients()[i as int], received),
            ),
            event matches Some((id, _)) ==> id == old(self).clients()[i as int].id,
            reported(
                old(self).clients()[i as int],
                old(self).step(),
                received,
                match event {
                    Some((_, event)) => Some(event),
                    None => None,
                },
            ),
    {
        let ghost start = self.clients();
        let id = self.clients[i].id;
        let state = self.clients[i].state;
        let current_step = self.current_step;
        match received {
            Ok(Some(ClientMessage::Connect { token: _ })) => {
                if state == ClientState::Pending {
                    assert(start.update(i as int, start[i as int]) =~= start);
                    Some((id, Event::ClientConnect(ClientConnectEvent { client: id, current_step })))
                } else {
                    self.set_state(i, ClientState::Disconnected);
                    Some((id, Event::Disconnected))
                }
            },
            Ok(Some(ClientMessage::AddPlayer { player })) => {
                assert(start.update(i as int, start[i as int]) =~= start);
                if state == ClientState::Connected {
                    Some((id, Event::AddPlayer(AddPlayerEvent { client: id, player })))
                } else {
                    Some((id, Event::Disconnected))
                }
            },
            Ok(Some(ClientMessage::Inputs { at, inputs })) => {
                if state == ClientState::Connected {
                    self.clients[i].next_update_step = at.next_update_step;
                    if self.clients[i].last_input_step <= at.step {
                        self.clients[i].last_input_step = at.step;
                        assert(self.clients() =~= start.update(
                            i as int,
                            after(start[i as int], received),
                        ));
                        Some((id, Event::Inputs(InputsEvent { inputs, step: at.step })))
                    } else {
                        assert(self.clients() =~= start.update(
                            i as int,
                            after(start[i as int], received),
                        ));
                        None
                    }
                } else {
                    assert(start.update(i as int, start[i as int]) =~= start);
                    Some((id, Event::Disconnected))
                }
            },
            Ok(None) => {
                assert(start.update(i as int, start[i as int]) =~= start);
                None
            },
            Err(_) => {
                self.set_state(i, ClientState::Disconnected);
                Some((id, Event::Disconnected))
            },
        }
    }

    /// Whether no connected client claims to have seen an update of a step that has not been.
    pub fn is_in_time(&self) -> (in_time: bool)
        ensures
            in_time == self.in_time(),
    {
        for i in 0..self.clients.len()
            invariant
                forall|k: int|
                    0 <= k < i && (#[trigger] self.clients()[k]).state is Connected
                        ==> self.clients()[k].next_update_step <= self.step(),
        {
            if self.clients[i].state == ClientState::Connected
                && self.clients[i].next_update_step > self.current_step {
                assert(self.clients()[i as int].state is Connected);
                return false;
            }
        }
        true
    }

    /// The place of each connected client, and how many steps before the current step is the first
    /// that it has not seen an update of.
    pub fn due(&self) -> (backs: Vec<(usize, u64)>)
        requires
            self.in_time(),
        ensures
            backs@.map_values(|back: (usize, u64)| (back.0 as int, back.1 as int)) == due(
                self.clients(),
                self.step(),
            ),
    {
        let ghost start = self.clients();
        let mut backs: Vec<(usize, u64)> = Vec::new();
        let ghost ints = |back: (usize, u64)| (back.0 as int, back.1 as int);
        assert(start.take(0) =~= Seq::empty());
        assert(backs@.map_values(ints) =~= Seq::empty());
        for i in 0..self.clients.len()
            invariant
                self.in_time(),
                start == self.clients(),
                ints == (|back: (usize, u64)| (back.0 as int, back.1 as int)),
                backs@.map_values(ints) == due(start.take(i as int), self.step()),
        {
            let ghost before = backs@;
            assert(start.take(i + 1).drop_last() =~= start.take(i as int));
            if self.clients[i].state == ClientState::Connected {
                assert(self.clients()[i as int].state is Connected);
                let back: u64 = self.current_step - self.clients[i].next_update_step;
                backs.push((i, back));
                assert(backs@.map_values(ints) =~= before.map_values(ints).push(ints((i, back))));
            }
        }
        assert(start.take(start.len() as int) =~= start);
        backs
    }

    /// Advances server-side simulation by one step, after each connected client was sent an update.
    /// The clients at `failed` could not be reached: they are disconnected.
    pub fn advance(&mut self, failed: &Vec<usize>)
        requires
            old(self).wf(),
            old(self).step() < u64::MAX,
            forall|k: int| 0 <= k < failed@.len() ==> #[trigger] failed@[k] < old(self).clients().len(),
        ensures
            final(self).wf(),
            advanced(*old(self), *final(self), failed@),
    {
        let ghost start = self.clients();
        let total: usize = self.clients.len();
        for k in 0..failed.len()
            invariant
                start.len() == total,
                self.wf(),
                self.same_but_clients(*old(self)),
                self.clients().len() == start.len(),
                forall|k: int| 0 <= k < failed@.len() ==> #[trigger] failed@[k] < start.len(),
                forall|i: int|
                    0 <= i < start.len() ==> #[trigger] self.clients()[i] == (
                    if failed@.take(k as int).contains(i as usize) {
                        with_state(start[i], ClientState::Disconnected)
                    } else {
                        start[i]
                    }),
        {
            let i: usize = failed[k];
            let ghost taken = failed@.take(k as int);
            let ghost before = self.clients();
            assert(failed@.take(k + 1) =~= taken.push(i));
            self.set_state(i, ClientState::Disconnected);
            assert forall|j: int| 0 <= j < start.len() implies #[trigger] self.clients()[j] == (
            if failed@.take(k + 1).contains(j as usize) {
                with_state(start[j], ClientState::Disconnected)
            } else {
                start[j]
            }) by {
                let u = j as usize;
                assert(taken.push(i)[taken.len() as int] == i);
                if taken.contains(u) {
                    let m = choose|m: int| 0 <= m < taken.len() && taken[m] == u;
                    assert(taken.push(i)[m] == u);
                }
                assert(before[j] == (if taken.contains(u) {
                    with_state(start[j], ClientState::Disconnected)
                } else {
                    start[j]
                }));
            }
        }
        assert(failed@.take(failed@.len() as int) =~= failed@);
        self.current_step = self.current_step + 1;
    }
}

/// Those that remain are clients, none is disconnected, and they keep their order.
proof fn lemma_remaining<C>(clients: Seq<Client<C>>)
    ensures
        remaining(clients).len() <= clients.len(),
        forall|i: int|
            0 <= i < remaining(clients).len() ==> !((#[trigger] remaining(clients)[i]).state is
            Disconnected),
        forall|i: int|
            0 <= i < remaining(clients).len() ==> exists|a: int|
                0 <= a < clients.len() && clients[a] == #[trigger] remaining(clients)[i],
        forall|i: int, j: int|
            0 <= i < j < remaining(clients).len() ==> exists|a: int, b: int|
                0 <= a < b < clients.len() && clients[a] == #[trigger] remaining(clients)[i]
                    && clients[b] == #[trigger] remaining(clients)[j],
    decreases clients.len(),
{
    if clients.len() > 0 {
        let rest = clients.drop_last();
        let kept = remaining(rest);
        lemma_remaining(rest);
        assert forall|i: int| 0 <= i < remaining(clients).len() implies exists|a: int|
            0 <= a < clients.len() && clients[a] == #[trigger] remaining(clients)[i] by {
            if i < kept.len() {
                let a = choose|a: int| 0 <= a < rest.len() && rest[a] == kept[i];
                assert(clients[a] == remaining(clients)[i]);
            } else {
                assert(clients[clients.len() - 1] == remaining(clients)[i]);
            }
        }
        assert forall|i: int, j: int| 0 <= i < j < remaining(clients).len() implies exists|
            a: int,
            b: int,
        |
            0 <= a < b < clients.len() && clients[a] == #[trigger] remaining(clients)[i]
                && clients[b] == #[trigger] remaining(clients)[j] by {
            if j < kept.len() {
                let (a, b) = choose|a: int, b: int|
                    0 <= a < b < rest.len() && rest[a] == kept[i] && rest[b] == kept[j];
                assert(clients[a] == remaining(clients)[i] && clients[b] == remaining(clients)[j]);
            } else {
                let a = choose|a: int| 0 <= a < rest.len() && rest[a] == kept[i];
                let b = clients.len() - 1;
                assert(clients[a] == remaining(clients)[i] && clients[b] == remaining(clients)[j]);
            }
        }
    }
}

/// A player is added and inputs are taken only of a client that was connected, and a client is
/// connected only once.
pub proof fn handshake_comes_first<C, P, I, E>(
    client: Client<C>,
    step: u64,
    received: Result<Option<ClientMessage<InputStep, P, I>>, E>,
    event: Option<Event<P, I>>,
)
    requires
        reported(client, step, received, event),
    ensures
        event matches Some(Event::ClientConnect(_)) ==> client.state is Pending,
        event matches Some(Event::AddPlayer(_)) ==> client.state is Connected,
        event matches Some(Event::Inputs(_)) ==> client.state is Connected,
        received matches Ok(Some(ClientMessage::Connect { .. })) ==> (client.state is Connected
            ==> after(client, received).state is Disconnected),
{
}

/// The steps of the inputs that are taken of a client never go back: old inputs are dropped.
pub proof fn inputs_keep_order<C, P, I, E>(
    client: Client<C>,
    step: u64,
    received: Result<Option<ClientMessage<InputStep, P, I>>, E>,
    event: Option<Event<P, I>>,
)
    requires
        reported(client, step, received, event),
    ensures
        client.last_input_step <= after(client, received).last_input_step,
        event matches Some(Event::Inputs(event)) ==> {
            &&& client.last_input_step <= event.sent_at()
            &&& event.sent_at() == after(client, received).last_input_step
        },
{
}

/// Exactly the clients that are not disconnected remain.
pub proof fn disconnected_are_dropped<C>(clients: Seq<Client<C>>)
    ensures
        forall|client: Client<C>| #[trigger]
            remaining(clients).contains(client) <==> clients.contains(client) && !(
            client.state is Disconnected),
    decreases clients.len(),
{
    if clients.len() > 0 {
        let rest = clients.drop_last();
        let last = clients.last();
        disconnected_are_dropped(rest);
        assert(clients =~= rest.push(last));
        assert forall|client: Client<C>| #[trigger]
            remaining(clients).contains(client) <==> clients.contains(client) && !(
            client.state is Disconnected) by {
            crate::keys::push_contains(rest, last, client);
            crate::keys::push_contains(remaining(rest), last, client);
        }
    }
}

/// The clients of `s1` are clients of `s0`, each with its id and its channel, and no id was handed
/// out. `key` tells channels apart, however they are used.
pub open spec fn same_clients<C, L, K>(
    s0: ServerSession<C, L>,
    s1: ServerSession<C, L>,
    key: spec_fn(C) -> K,
) -> bool {
    &&& s1.next_client_id() == s0.next_client_id()
    &&& forall|i: int|
        0 <= i < s1.clients().len() ==> exists|j: int|
            {
                &&& 0 <= j < s0.clients().len()
                &&& (#[trigger] s0.clients()[j]).id == (#[trigger] s1.clients()[i]).id
                &&& key(s0.clients()[j].channel) == key(s1.clients()[i].channel)
            }
}

/// `s1` is `s0` with one more client, whose id is the next.
pub open spec fn arrived<C, L>(
    s0: ServerSession<C, L>,
    s1: ServerSession<C, L>,
    channel: C,
) -> bool {
    &&& s1.next_client_id() == s0.next_client_id() + 1
    &&& s1.clients() == s0.clients().push(s1.clients().last())
    &&& s1.clients().last().id == ClientId(s0.next_client_id())
    &&& s1.clients().last().channel == channel
}

/// A session that began without clients went through `states`. Meanwhile channels with the keys
/// `arrivals` were accepted, in that order.
pub open spec fn history<C, L, K>(
    states: Seq<ServerSession<C, L>>,
    key: spec_fn(C) -> K,
    arrivals: Seq<K>,
) -> bool
    decreases states.len(),
{
    if states.len() == 0 {
        false
    } else if states.len() == 1 {
        &&& states[0].clients().len() == 0
        &&& states[0].next_client_id() == 1
        &&& arrivals.len() == 0
    } else {
        let before = states.drop_last();
        ||| same_clients(before.last(), states.last(), key) && history(before, key, arrivals)
        ||| arrivals.len() > 0 && history(before, key, arrivals.drop_last()) && arrived(
            before.last(),
            states.last(),
            states.last().clients().last().channel,
        ) && key(states.last().clients().last().channel) == arrivals.last()
    }
}

/// Ids follow arrival: the first channel that was accepted has the id one, the next has two, and so
/// on. Each keeps its id for as long as it is there, and no other ever gets it.
pub proof fn ids_follow_arrival<C, L, K>(
    states: Seq<ServerSession<C, L>>,
    key: spec_fn(C) -> K,
    arrivals: Seq<K>,
)
    requires
        history(states, key, arrivals),
    ensures
        states.last().next_client_id() == arrivals.len() + 1,
        forall|i: int|
            0 <= i < states.last().clients().len() ==> {
                let client = #[trigger] states.last().clients()[i];
                &&& 0 < client.id.0 <= arrivals.len()
                &&& key(client.channel) == arrivals[client.id.0 - 1]
            },
    decreases states.len(),
{
    if states.len() > 1 {
        let before = states.drop_last();
        let last = states.last();
        if same_clients(before.last(), last, key) && history(before, key, arrivals) {
            ids_follow_arrival(before, key, arrivals);
            assert forall|i: int| 0 <= i < last.clients().len() implies {
                let client = #[trigger] last.clients()[i];
                &&& 0 < client.id.0 <= arrivals.len()
                &&& key(client.channel) == arrivals[client.id.0 - 1]
            } by {
                let j = choose|j: int|
                    {
                        &&& 0 <= j < before.last().clients().len()
                        &&& (#[trigger] before.last().clients()[j]).id == last.clients()[i].id
                        &&& key(before.last().clients()[j].channel) == key(
                            last.clients()[i].channel,
                        )
                    };
                assert(before.last().clients()[j].id.0 > 0);
            }
        } else {
            ids_follow_arrival(before, key, arrivals.drop_last());
            assert forall|i: int| 0 <= i < last.clients().len() implies {
                let client = #[trigger] last.clients()[i];
                &&& 0 < client.id.0 <= arrivals.len()
                &&& key(client.channel) == arrivals[client.id.0 - 1]
            } by {
                if i < last.clients().len() - 1 {
                    assert(before.last().clients()[i] == last.clients()[i]);
                }
            }
        }
    }
}

/// What a session does but to accept a channel leaves its clients as they are, or drops some: it
/// drops the disconnected, takes a message, connects a client, goes on to the next step, or lets a
/// channel be used.
pub proof fn clients_stay_the_same<C, L, K, P, I, E, J, U>(
    s0: ServerSession<C, L>,
    s1: ServerSession<C, L>,
    key: spec_fn(C) -> K,
    i: int,
    received: Result<Option<ClientMessage<InputStep, P, I>>, E>,
    event: ClientConnectEvent,
    message: Option<ServerMessage<Connected, J, U>>,
    failed: Seq<usize>,
    channel: C,
)
    requires
        ({
            ||| s1.same_but_clients(s0) && s1.clients() == remaining(s0.clients())
            ||| 0 <= i < s0.clients().len() && s1.same_but_clients(s0) && s1.clients()
                == s0.clients().update(i, after(s0.clients()[i], received))
            ||| 0 <= i < s0.clients().len() && s1.same_but_clients(s0) && s1.clients()
                == s0.clients().update(i, (Client { channel, ..s0.clients()[i] })) && key(channel)
                == key(s0.clients()[i].channel)
            ||| connected(s0, s1, event, message)
            ||| advanced(s0, s1, failed)
        }),
    ensures
        same_clients(s0, s1, key),
{
    lemma_remaining(s0.clients());
    assert forall|k: int| 0 <= k < s1.clients().len() implies exists|j: int|
        {
            &&& 0 <= j < s0.clients().len()
            &&& (#[trigger] s0.clients()[j]).id == (#[trigger] s1.clients()[k]).id
            &&& key(s0.clients()[j].channel) == key(s1.clients()[k].channel)
        } by {
        if s1.clients() == remaining(s0.clients()) {
            let j = choose|j: int|
                0 <= j < s0.clients().len() && s0.clients()[j] == remaining(s0.clients())[k];
            assert(s0.clients()[j].id == s1.clients()[k].id);
        } else {
            assert(s0.clients()[k].id == s1.clients()[k].id);
        }
    }
}

} // verus!
