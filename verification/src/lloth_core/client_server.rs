//! Client side of a session that acknowledges the updates it has seen.

use crate::client_server::{
    self, ClientMessage, Connected, InputStep, PlayerId, Progress, ServerMessage,
};
use crate::client_server::client;
use vstd::prelude::*;

pub use crate::client_server::client::{ClientError, Updates};

verus! {

/// A session that makes one step whenever it is advanced.
pub struct ClientSession<C> {
    channel: C,
    current_step: u64,
    next_update_step: u64,
}

impl<C> ClientSession<C> {
    /// The channel to the server.
    pub closed spec fn link(self) -> C {
        self.channel
    }

    /// The current step.
    pub closed spec fn step(self) -> u64 {
        self.current_step
    }

    /// The first of the server's steps behind the last one that an update was received of; zero
    /// where none was received.
    pub closed spec fn next_update_step(self) -> u64 {
        self.next_update_step
    }

    /// What is sent to open a session.
    pub fn hello<A, P, I>() -> (message: ClientMessage<A, P, I>)
        ensures
            message is Connect,
            message->token@ == "lloth"@,
    {
        ClientMessage::Connect { token: "lloth".to_owned() }
    }

    /// Takes a message received while the session is opened. The session starts at the step that
    /// the server tells. The channel is handed back where the exchange goes on.
    pub fn new<J, U, E>(
        channel: C,
        received: Result<Option<ServerMessage<Connected, J, U>>, E>,
    ) -> (result: (Progress<Result<Self, ClientError<E>>>, Option<C>))
        ensures
            match client::opening(received) {
                Progress::Done(Ok(hello)) => {
                    &&& result.1 is None
                    &&& result.0 matches Progress::Done(Ok(session)) && {
                        &&& session.link() == channel
                        &&& session.step() == hello.step
                        &&& session.next_update_step() == 0
                    }
                },
                Progress::Done(Err(err)) => {
                    &&& result.0 == Progress::Done(Err::<Self, ClientError<E>>(err))
                    &&& result.1 is None
                },
                Progress::Again => result.0 is Again && result.1 == Some(channel),
                Progress::Wait => result.0 is Wait && result.1 == Some(channel),
            },
    {
        match client::open_with(received) {
            Progress::Done(Ok(hello)) => {
                let session = ClientSession {
                    channel,
                    current_step: hello.step,
                    next_update_step: 0,
                };
                (Progress::Done(Ok(session)), None)
            },
            Progress::Done(Err(err)) => (Progress::Done(Err(err)), None),
            Progress::Again => (Progress::Again, Some(channel)),
            Progress::Wait => (Progress::Wait, Some(channel)),
        }
    }

    /// The current step.
    pub fn current_step(&self) -> (step: u64)
        ensures
            step == self.step(),
    {
        self.current_step
    }

    /// The channel to the server.
    pub fn channel(&mut self) -> (channel: &mut C)
        ensures
            *channel == old(self).link(),
            final(self).link() == *final(channel),
            final(self).step() == old(self).step(),
            final(self).next_update_step() == old(self).next_update_step(),
    {
        &mut self.channel
    }

    /// Takes a message received while a player is added.
    pub fn add_player<J, U, E>(
        &mut self,
        received: Result<Option<ServerMessage<Connected, J, U>>, E>,
    ) -> (progress: Progress<Result<J, ClientError<E>>>)
        ensures
            progress == client::joining(received),
            *final(self) == *old(self),
    {
        client::join_with(received)
    }

    /// What is sent of players' inputs to the server.
    pub fn send_inputs<P, I>(&self, inputs: Vec<(PlayerId, I)>) -> (message: ClientMessage<
        InputStep,
        P,
        I,
    >)
        ensures
            message is Inputs,
            message->at == (InputStep {
                step: self.step(),
                next_update_step: self.next_update_step(),
            }),
            message->inputs@ == client_server::named(inputs@),
    {
        ClientMessage::Inputs {
            at: InputStep { step: self.current_step, next_update_step: self.next_update_step },
            inputs: client_server::name_players(inputs),
        }
    }

    /// Advances client-side simulation by one step, and takes a message that was received. An
    /// update is acknowledged with the next inputs. The step is not made where the channel failed
    /// or the message is out of place.
    pub fn advance<J, U, E>(
        &mut self,
        received: Result<Option<ServerMessage<Connected, J, U>>, E>,
    ) -> (updates: Result<Option<Updates<U>>, ClientError<E>>)
        requires
            old(self).step() < u64::MAX,
            received matches Ok(Some(ServerMessage::Updates { server_step, .. })) ==> server_step
                < u64::MAX,
        ensures
            updates == client::updating(received),
            final(self).step() == (if updates is Ok {
                old(self).step() + 1
            } else {
                old(self).step() as int
            }),
            final(self).next_update_step() == (match updates {
                Ok(Some(updates)) => updates.server_step + 1,
                _ => old(self).next_update_step() as int,
            }),
            final(self).link() == old(self).link(),
    {
        match client::update_with(received) {
            Ok(updates) => {
                if let Some(updates) = &updates {
                    self.next_update_step = updates.server_step + 1;
                }
                self.current_step = self.current_step + 1;
                Ok(updates)
            },
            Err(err) => Err(err),
        }
    }
}

} // verus!
