//! Client-server kind of sessions.

use vstd::prelude::*;

pub mod answers;
pub mod client;
pub mod laws;
pub mod server;

pub use self::client::{ClientError, ClientSession, Updates};
pub use self::server::{
    AddPlayerEvent, Client, ClientConnectEvent, ClientState, Event, InputsEvent, ServerSession,
};

verus! {

/// Identifies a player. Zero identifies none.
#[derive(Clone, Copy, Debug, PartialEq, Eq, Hash, Structural)]
pub struct PlayerId(pub u64);

/// Identifies a client of a server session. Zero identifies none.
#[derive(Clone, Copy, Debug, PartialEq, Eq, Hash, Structural)]
pub struct ClientId(pub u64);

impl alkahest::SchemaUnpack<'_> for PlayerId {
    type Unpacked = Option<PlayerId>;
}

impl alkahest::Schema for PlayerId {
    type Packed = u64;

    fn align() -> (align: usize)
        ensures
            align == 8,
    {
        8
    }

    /// The player whose number is `packed`; `None` for zero.
    fn unpack<'a>(packed: u64, _input: &'a [u8]) -> (player: Option<PlayerId>)
        ensures
            player == (if packed == 0 {
                None
            } else {
                Some(PlayerId(packed))
            }),
    {
        if packed == 0 {
            None
        } else {
            Some(PlayerId(packed))
        }
    }
}

impl alkahest::Pack<PlayerId> for PlayerId {
    /// The player's number; uses none of `_output`.
    fn pack(self, _offset: usize, _output: &mut [u8]) -> (packed: (u64, usize))
        ensures
            packed == (self.0, 0usize),
            final(_output)@ == old(_output)@,
    {
        (self.0, 0)
    }
}

/// What a client sends to a server. `A` tells at which step inputs are sent, `P` describes a
/// player, and `I` is one input.
#[derive(Debug, PartialEq, Eq)]
pub enum ClientMessage<A, P, I> {
    Connect { token: String },
    AddPlayer { player: P },
    Inputs { at: A, inputs: Vec<(Option<PlayerId>, I)> },
}

/// What a server sends to a client. `H` opens the session, `J` answers a new player, and `U` is an
/// update of the world.
#[derive(Debug, PartialEq, Eq)]
pub enum ServerMessage<H, J, U> {
    Connected(H),
    PlayerJoined { info: J },
    Updates { server_step: u64, updates: U },
}

/// The server's step at which a session was opened.
#[derive(Clone, Copy, Debug, PartialEq, Eq, Structural)]
pub struct Connected {
    pub step: u64,
}

/// At which of the client's steps inputs are sent, and the first of the server's steps that the
/// client has not seen an update of.
#[derive(Clone, Copy, Debug, PartialEq, Eq, Structural)]
pub struct InputStep {
    pub step: u64,
    pub next_update_step: u64,
}

/// How far an exchange has got.
#[derive(Debug, PartialEq, Eq)]
pub enum Progress<T> {
    /// It is over.
    Done(T),
    /// A message was passed over: receive the next.
    Again,
    /// Nothing has arrived: wait until something does, then receive.
    Wait,
}

/// `inputs` as a client sends them: every player is named.
pub open spec fn named<I>(inputs: Seq<(PlayerId, I)>) -> Seq<(Option<PlayerId>, I)> {
    inputs.map_values(|input: (PlayerId, I)| (Some(input.0), input.1))
}

/// Names the player of each input.
pub(crate) fn name_players<I>(inputs: Vec<(PlayerId, I)>) -> (out: Vec<(Option<PlayerId>, I)>)
    ensures
        out@ == named(inputs@),
{
    let ghost start = inputs@;
    let mut out: Vec<(Option<PlayerId>, I)> = Vec::new();
    for input in it: inputs.into_iter()
        invariant
            it.seq() == start,
            out@ == named(start.take(it.index() as int)),
    {
        let ghost n = it.index() as int;
        let ghost before = out@;
        let (pid, data) = input;
        out.push((Some(pid), data));
        assert(out@ =~= named(start.take(n + 1)));
    }
    assert(start.take(start.len() as int) =~= start);
    out
}

} // verus!
