//! Client side of a session that keeps time within its steps.

use crate::client_server::{self, ClientMessage, PlayerId, Progress, ServerMessage};
use vstd::prelude::*;

verus! {

/// What went wrong in a client session.
#[derive(Debug, PartialEq, Eq)]
pub enum ClientError<E> {
    /// The channel failed.
    ChannelError { source: E },
    /// The server sent a message that is out of place.
    UnexpectedMessage,
}

/// An update of the world.
#[derive(Debug, PartialEq, Eq)]
pub struct Updates<U> {
    /// The server's step that the update is of.
    pub server_step: u64,
    /// What has changed.
    pub updates: U,
}

/// The server's step at which a session was opened, and how long its steps are.
#[derive(Clone, Copy, Debug, PartialEq, Eq, Structural)]
pub struct TimedConnected {
    pub step: u64,
    pub step_delta_ns: u64,
}

/// What comes of a message received while a session is opened. Updates that are sent meanwhile are
/// passed over.
pub open spec fn opening<H, J, U, E>(
    received: Result<Option<ServerMessage<H, J, U>>, E>,
) -> Progress<Result<H, ClientError<E>>> {
    match received {
        Ok(Some(ServerMessage::Connected(hello))) => Progress::Done(Ok(hello)),
        Ok(Some(ServerMessage::Updates { .. })) => Progress::Again,
        Ok(Some(ServerMessage::PlayerJoined { .. })) => Progress::Done(
            Err(ClientError::UnexpectedMessage),
        ),
        Ok(None) => Progress::Wait,
        Err(source) => Progress::Done(Err(ClientError::ChannelError { source })),
    }
}

/// What comes of a message received while a player is added. Updates that are sent meanwhile are
/// passed over.
pub open spec fn joining<H, J, U, E>(
    received: Result<Option<ServerMessage<H, J, U>>, E>,
) -> Progress<Result<J, ClientError<E>>> {
    match received {
        Ok(Some(ServerMessage::PlayerJoined { info })) => Progress::Done(Ok(info)),
        Ok(Some(ServerMessage::Connected(_))) => Progress::Done(
            Err(ClientError::UnexpectedMessage),
        ),
        Ok(Some(ServerMessage::Updates { .. })) => Progress::Again,
        Ok(None) => Progress::Wait,
        Err(source) => Progress::Done(Err(ClientError::ChannelError { source })),
    }
}

/// What comes of a message received while the simulation is advanced: only updates are in place.
pub open spec fn updating<H, J, U, E>(
    received: Result<Option<ServerMessage<H, J, U>>, E>,
) -> Result<Option<Updates<U>>, ClientError<E>> {
    match received {
        Ok(Some(ServerMessage::Updates { server_step, updates })) => Ok(
            Some(Updates { server_step, updates }),
        ),
        Ok(Some(_)) => Err(ClientError::UnexpectedMessage),
        Ok(None) => Ok(None),
        Err(source) => Err(ClientError::ChannelError { source }),
    }
}

/// Takes a message received while a session is opened.
pub(crate) fn open_with<H, J, U, E>(received: Result<Option<ServerMessage<H, J, U>>, E>) -> (
    progress: Progress<Result<H, ClientError<E>>>)
    ensures
        progress == opening(received),
{
    match received {
        Ok(Some(ServerMessage::Connected(hello))) => Progress::Done(Ok(hello)),
        Ok(Some(ServerMessage::Updates { .. })) => Progress::Again,
        Ok(Some(ServerMessage::PlayerJoined { .. })) => Progress::Done(
            Err(ClientError::UnexpectedMessage),
        ),
        Ok(None) => Progress::Wait,
        Err(source) => Progress::Done(Err(ClientError::ChannelError { source })),
    }
}

/// Takes a message received while a player is added.
pub(crate) fn join_with<H, J, U, E>(received: Result<Option<ServerMessage<H, J, U>>, E>) -> (
    progress: Progress<Result<J, ClientError<E>>>)
    ensures
        progress == joining(received),
{
    match received {
        Ok(Some(ServerMessage::PlayerJoined { info })) => Progress::Done(Ok(info)),
        Ok(Some(ServerMessage::Connected(_))) => Progress::Done(
            Err(ClientError::UnexpectedMessage),
        ),
        Ok(Some(ServerMessage::Updates { .. })) => Progress::Again,
        Ok(None) => Progress::Wait,
        Err(source) => Progress::Done(Err(ClientError::ChannelError { source })),
    }
}

/// Takes a message received while the simulation is advanced.
pub(crate) fn update_with<H, J, U, E>(received: Result<Option<ServerMessage<H, J, U>>, E>) -> (
    updates: Result<Option<Updates<U>>, ClientError<E>>)
    ensures
        updates == updating(received),
{
    match received {
        Ok(Some(ServerMessage::Updates { server_step, updates })) => Ok(
            Some(Updates { server_step, updates }),
        ),
        Ok(Some(_)) => Err(ClientError::UnexpectedMessage),
        Ok(None) => Ok(None),
        Err(source) => Err(ClientError::ChannelError { source }),
    }
}

/// A session that keeps time within its steps.
pub struct ClientSession<C> {
    channel: C,
    current_step: u64,
    step_delta_ns: u64,
    current_step_ns: u64,
}

impl<C> ClientSession<C> {
    /// The channel to the server.
    pub closed spec fn link(self) -> C {
        self.channel
    }

    /// The current step.
    pub closed spec fn step(self) -> u64 {
        self.current_step
    }

    /// How long a step is.
    pub closed spec fn step_delta_ns(self) -> u64 {
        self.step_delta_ns
    }

    /// How much of the current step has passed.
    pub closed spec fn step_ns(self) -> u64 {
        self.current_step_ns
    }

    /// This is `before` one step later, after `delta_ns` more: whole steps of time are not kept,
    /// what is over is.
    pub open spec fn advanced(self, before: Self, delta_ns: u64) -> bool {
        &&& self.step() == before.step() + 1
        &&& self.step_ns() == (before.step_ns() + delta_ns) % (before.step_delta_ns() as int)
        &&& self.step_delta_ns() == before.step_delta_ns()
        &&& self.link() == before.link()
    }

    /// The current step is not over.
    pub open spec fn wf(self) -> bool {
        self.step_delta_ns() > 0 ==> self.step_ns() < self.step_delta_ns()
    }

    /// What is sent to open a session.
    pub fn hello<A, P, I>() -> (message: ClientMessage<A, P, I>)
        ensures
            message is Connect,
            message->token@ == "astral"@,
    {
        ClientMessage::Connect { token: "astral".to_owned() }
    }

    /// Takes a message received while the session is opened. The session starts at the step that
    /// the server tells.
    pub fn new<J, U, E>(
        channel: C,
        received: Result<Option<ServerMessage<TimedConnected, J, U>>, E>,
    ) -> (result: (Progress<Result<Self, ClientError<E>>>, Option<C>))
        ensures
            match opening(received) {
                Progress::Done(Ok(hello)) => {
                    &&& result.1 is None
                    &&& result.0 matches Progress::Done(Ok(session)) && {
                        &&& session.link() == channel
                        &&& session.step() == hello.step
                        &&& session.step_delta_ns() == hello.step_delta_ns
                        &&& session.step_ns() == 0
                        &&& session.wf()
                    }
                },
                Progress::Done(Err(err)) => {
                    &&& result.0 == Progress::Done(Err::<Self, ClientError<E>>(err))
                    &&& result.1 is None
                },
                Progress::Again => result.0 is Again && result.1 == Some(channel),
                Progress::Wait => result.0 is Wait && result.1 == Some(channel),
            },
    {
        match open_with(received) {
            Progress::Done(Ok(hello)) => {
                let session = ClientSession {
                    channel,
                    current_step: hello.step,
                    step_delta_ns: hello.step_delta_ns,
                    current_step_ns: 0,
                };
                (Progress::Done(Ok(session)), None)
            },
            Progress::Done(Err(err)) => (Progress::Done(Err(err)), None),
            Progress::Again => (Progress::Again, Some(channel)),
            Progress::Wait => (Progress::Wait, Some(channel)),
        }
    }

    /// The current step.
    pub fn current_step(&self) -> (step: u64)
        ensures
            step == self.step(),
    {
        self.current_step
    }

    /// The channel to the server.
    pub fn channel(&mut self) -> (channel: &mut C)
        ensures
            *channel == old(self).link(),
            final(self).link() == *final(channel),
            final(self).step() == old(self).step(),
            final(self).step_delta_ns() == old(self).step_delta_ns(),
            final(self).step_ns() == old(self).step_ns(),
    {
        &mut self.channel
    }

    /// Takes a message received while a player is added.
    pub fn add_player<J, U, E>(
        &mut self,
        received: Result<Option<ServerMessage<TimedConnected, J, U>>, E>,
    ) -> (progress: Progress<Result<J, ClientError<E>>>)
        ensures
            progress == joining(received),
            *final(self) == *old(self),
    {
        join_with(received)
    }

    /// What is sent of players' inputs to the server.
    pub fn send_inputs<P, I>(&self, inputs: Vec<(PlayerId, I)>) -> (message: ClientMessage<
        u64,
        P,
        I,
    >)
        ensures
            message is Inputs,
            message->at == self.step(),
            message->inputs@ == client_server::named(inputs@),
    {
        ClientMessage::Inputs {
            at: self.current_step,
            inputs: client_server::name_players(inputs),
        }
    }

    /// Advances client-side simulation by one step, after `delta_ns` more, and takes a message that
    /// was received.
    pub fn advance<J, U, E>(
        &mut self,
        delta_ns: u64,
        received: Result<Option<ServerMessage<TimedConnected, J, U>>, E>,
    ) -> (updates: Result<Option<Updates<U>>, ClientError<E>>)
        requires
            old(self).step_delta_ns() > 0,
            old(self).step_ns() + delta_ns <= u64::MAX,
            old(self).step() < u64::MAX,
        ensures
            updates == updating(received),
            final(self).advanced(*old(self), delta_ns),
            final(self).wf(),
    {
        self.current_step_ns = (self.current_step_ns + delta_ns) % self.step_delta_ns;
        self.current_step = self.current_step + 1;
        update_with(received)
    }
}

/// How much of the current step has passed depends on the time that went by alone, not on how it
/// was cut into pieces; the step, on the number of pieces alone.
pub proof fn pieces_add_up<C>(
    a: ClientSession<C>,
    b: ClientSession<C>,
    c: ClientSession<C>,
    first_ns: u64,
    second_ns: u64,
)
    requires
        a.step_delta_ns() > 0,
        b.advanced(a, first_ns),
        c.advanced(b, second_ns),
    ensures
        c.step() == a.step() + 2,
        c.step_ns() == (a.step_ns() + first_ns + second_ns) % (a.step_delta_ns() as int),
{
    let d = a.step_delta_ns() as int;
    vstd::arithmetic::div_mod::lemma_add_mod_noop(a.step_ns() + first_ns, second_ns as int, d);
    vstd::arithmetic::div_mod::lemma_add_mod_noop(
        (a.step_ns() + first_ns) % d,
        second_ns as int,
        d,
    );
    vstd::arithmetic::div_mod::lemma_mod_twice(a.step_ns() + first_ns, d);
}

} // verus!
