//! The bytes of the messages between clients and servers.
//!
//! A message starts with a part of fixed size: the number of its kind, the fields of its kind, and
//! zeros up to the size. What has no fixed size follows, and the fields tell where. Integers are
//! little-endian. The messages of both kinds of sessions are laid out alike: what a client tells of
//! the time of its inputs, and what a server opens a session with, is [`Fixed`].

use crate::channel::tcp::MAX_PACKET;
use crate::client::system::SentInput;
use crate::client_server::client::TimedConnected;
use crate::client_server::{ClientMessage, Connected, InputStep, PlayerId, ServerMessage};
use crate::codec;
use crate::nid::{NetId, ZeroNetIdError};
use crate::schema::{InputPack, InputSchema, WorldSchema, WorldUnpacked};
use crate::server::replicas::WorldReplicaPack;
use crate::server::system::PackedInput;
use vstd::prelude::*;

pub mod laws;

verus! {

/// Size of the fixed part of an update that a server sends.
pub const SERVER_PART: usize = 24;

/// Size of the fixed part of one input.
pub const INPUT_PART: usize = 24;

/// `v` in four bytes.
pub open spec fn word(v: nat) -> Seq<u8> {
    codec::le_bytes(v, 4)
}

/// `v` in eight bytes.
pub open spec fn long(v: nat) -> Seq<u8> {
    codec::le_bytes(v, 8)
}

/// `n` zeros.
pub open spec fn zeros(n: nat) -> Seq<u8> {
    Seq::new(n, |i: int| 0u8)
}

/// The number that the four bytes at `i` hold.
pub open spec fn word_at(bytes: Seq<u8>, i: int) -> nat {
    codec::le_value(bytes.subrange(i, i + 4))
}

/// The number that the eight bytes at `i` hold.
pub open spec fn long_at(bytes: Seq<u8>, i: int) -> nat {
    codec::le_value(bytes.subrange(i, i + 8))
}

/// What takes a fixed number of bytes in a message: eight or sixteen.
pub trait Fixed: Copy {
    /// How many bytes it takes.
    spec fn size() -> nat;

    /// The bytes of the value.
    spec fn bytes(self) -> Seq<u8>;

    /// The value that the bytes at `i` hold.
    spec fn at(bytes: Seq<u8>, i: int) -> Self;

    /// There are at least eight bytes, and at most sixteen.
    proof fn bounded()
        ensures
            8 <= Self::size() <= 16,
    ;

    /// The value is read as it was written.
    proof fn round_trip(self, bytes: Seq<u8>, i: int)
        requires
            0 <= i,
            i + Self::size() <= bytes.len(),
            bytes.subrange(i, i + Self::size()) == self.bytes(),
        ensures
            Self::at(bytes, i) == self,
    ;

    /// The bytes are as many as they should be.
    proof fn sized(self)
        ensures
            self.bytes().len() == Self::size(),
    ;

    /// How many bytes it takes.
    fn len() -> (len: usize)
        ensures
            len == Self::size(),
    ;

    /// Appends the bytes of the value.
    fn push(&self, out: &mut Vec<u8>)
        ensures
            final(out)@ == old(out)@ + self.bytes(),
    ;

    /// Reads the value at `i`.
    fn read(bytes: &[u8], i: usize) -> (value: Self)
        requires
            i + Self::size() <= bytes@.len(),
        ensures
            value == Self::at(bytes@, i as int),
    ;
}

impl Fixed for u64 {
    open spec fn size() -> nat {
        8
    }

    open spec fn bytes(self) -> Seq<u8> {
        long(self as nat)
    }

    open spec fn at(bytes: Seq<u8>, i: int) -> Self {
        long_at(bytes, i) as u64
    }

    proof fn bounded() {
    }

    proof fn round_trip(self, bytes: Seq<u8>, i: int) {
        lemma_long(bytes, i, self);
    }

    proof fn sized(self) {
        lemma_word_len(self as nat);
    }

    fn len() -> (len: usize) {
        8
    }

    fn push(&self, out: &mut Vec<u8>) {
        push_long(out, *self);
    }

    fn read(bytes: &[u8], i: usize) -> (value: Self) {
        read_long(bytes, i)
    }
}

impl Fixed for Connected {
    open spec fn size() -> nat {
        8
    }

    open spec fn bytes(self) -> Seq<u8> {
        long(self.step as nat)
    }

    open spec fn at(bytes: Seq<u8>, i: int) -> Self {
        Connected { step: long_at(bytes, i) as u64 }
    }

    proof fn bounded() {
    }

    proof fn round_trip(self, bytes: Seq<u8>, i: int) {
        lemma_long(bytes, i, self.step);
    }

    proof fn sized(self) {
        lemma_word_len(self.step as nat);
    }

    fn len() -> (len: usize) {
        8
    }

    fn push(&self, out: &mut Vec<u8>) {
        push_long(out, self.step);
    }

    fn read(bytes: &[u8], i: usize) -> (value: Self) {
        Connected { step: read_long(bytes, i) }
    }
}

impl Fixed for InputStep {
    open spec fn size() -> nat {
        16
    }

    open spec fn bytes(self) -> Seq<u8> {
        long(self.step as nat) + long(self.next_update_step as nat)
    }

    open spec fn at(bytes: Seq<u8>, i: int) -> Self {
        InputStep { step: long_at(bytes, i) as u64, next_update_step: long_at(bytes, i + 8) as u64 }
    }

    proof fn bounded() {
    }

    proof fn round_trip(self, bytes: Seq<u8>, i: int) {
        self.sized();
        lemma_word_len(self.step as nat);
        lemma_word_len(self.next_update_step as nat);
        assert(bytes.subrange(i, i + 8) =~= bytes.subrange(i, i + 16).take(8));
        assert(bytes.subrange(i, i + 8) =~= long(self.step as nat));
        assert(bytes.subrange(i + 8, i + 16) =~= bytes.subrange(i, i + 16).skip(8));
        assert(bytes.subrange(i + 8, i + 16) =~= long(self.next_update_step as nat));
        lemma_long(bytes, i, self.step);
        lemma_long(bytes, i + 8, self.next_update_step);
    }

    proof fn sized(self) {
        lemma_word_len(self.step as nat);
        lemma_word_len(self.next_update_step as nat);
    }

    fn len() -> (len: usize) {
        16
    }

    fn push(&self, out: &mut Vec<u8>) {
        let ghost start = out@;
        push_long(out, self.step);
        push_long(out, self.next_update_step);
        assert(out@ =~= start + self.bytes());
    }

    fn read(bytes: &[u8], i: usize) -> (value: Self) {
        let total: usize = bytes.len();
        assert(i + 16 <= total);
        InputStep { step: read_long(bytes, i), next_update_step: read_long(bytes, i + 8) }
    }
}

impl Fixed for TimedConnected {
    open spec fn size() -> nat {
        16
    }

    open spec fn bytes(self) -> Seq<u8> {
        long(self.step as nat) + long(self.step_delta_ns as nat)
    }

    open spec fn at(bytes: Seq<u8>, i: int) -> Self {
        TimedConnected {
            step: long_at(bytes, i) as u64,
            step_delta_ns: long_at(bytes, i + 8) as u64,
        }
    }

    proof fn bounded() {
    }

    proof fn round_trip(self, bytes: Seq<u8>, i: int) {
        self.sized();
        lemma_word_len(self.step as nat);
        lemma_word_len(self.step_delta_ns as nat);
        assert(bytes.subrange(i, i + 8) =~= bytes.subrange(i, i + 16).take(8));
        assert(bytes.subrange(i, i + 8) =~= long(self.step as nat));
        assert(bytes.subrange(i + 8, i + 16) =~= bytes.subrange(i, i + 16).skip(8));
        assert(bytes.subrange(i + 8, i + 16) =~= long(self.step_delta_ns as nat));
        lemma_long(bytes, i, self.step);
        lemma_long(bytes, i + 8, self.step_delta_ns);
    }

    proof fn sized(self) {
        lemma_word_len(self.step as nat);
        lemma_word_len(self.step_delta_ns as nat);
    }

    fn len() -> (len: usize) {
        16
    }

    fn push(&self, out: &mut Vec<u8>) {
        let ghost start = out@;
        push_long(out, self.step);
        push_long(out, self.step_delta_ns);
        assert(out@ =~= start + self.bytes());
    }

    fn read(bytes: &[u8], i: usize) -> (value: Self) {
        let total: usize = bytes.len();
        assert(i + 16 <= total);
        TimedConnected { step: read_long(bytes, i), step_delta_ns: read_long(bytes, i + 8) }
    }
}

/// Size of the fixed part of what a client sends, whose inputs tell their time by `A`.
pub open spec fn client_part<A: Fixed>() -> nat {
    12 + A::size()
}

/// Size of what a server sends other than updates, which opens a session with `H`.
pub open spec fn server_reply<H: Fixed>() -> nat {
    4 + H::size()
}

/// One input as it travels: its player, the id of its entity, and its bytes. Zero stands for no
/// player and no entity.
pub struct WireInput {
    pub player: u64,
    pub nid: u64,
    pub input: Seq<u8>,
}

/// What a client sends, as it travels.
pub enum WireClient<A> {
    Connect { token: Seq<u8> },
    AddPlayer { player: Seq<u8> },
    Inputs { at: A, inputs: Seq<WireInput> },
}

/// The bytes of the inputs, one after the other.
pub open spec fn inputs_data(inputs: Seq<WireInput>) -> Seq<u8>
    decreases inputs.len(),
{
    if inputs.len() == 0 {
        Seq::empty()
    } else {
        inputs_data(inputs.drop_last()) + inputs.last().input
    }
}

/// The fixed parts of the inputs, where their bytes start at `start`.
pub open spec fn inputs_parts(inputs: Seq<WireInput>, start: nat) -> Seq<u8>
    decreases inputs.len(),
{
    if inputs.len() == 0 {
        Seq::empty()
    } else {
        let rest = inputs.drop_last();
        inputs_parts(rest, start) + long(inputs.last().player as nat) + long(
            inputs.last().nid as nat,
        ) + word(start + inputs_data(rest).len()) + word(inputs.last().input.len())
    }
}

/// The bytes of `message`.
pub open spec fn client_bytes<A: Fixed>(message: WireClient<A>) -> Seq<u8> {
    match message {
        WireClient::Connect { token } => word(0) + word(token.len()) + word(client_part::<A>())
            + zeros(A::size()) + token,
        WireClient::AddPlayer { player } => word(1) + word(player.len()) + word(
            client_part::<A>(),
        ) + zeros(A::size()) + player,
        WireClient::Inputs { at, inputs } => word(2) + at.bytes() + word(inputs.len()) + word(
            client_part::<A>(),
        ) + inputs_parts(inputs, client_part::<A>() + INPUT_PART as nat * inputs.len())
            + inputs_data(inputs),
    }
}

/// The `len` bytes at `offset`, where there are as many.
pub open spec fn part(bytes: Seq<u8>, offset: nat, len: nat) -> Option<Seq<u8>> {
    if offset + len <= bytes.len() {
        Some(bytes.subrange(offset as int, (offset + len) as int))
    } else {
        None
    }
}

/// The input whose fixed part stands at `i`.
pub open spec fn input_at(bytes: Seq<u8>, i: int) -> Option<WireInput> {
    if i + INPUT_PART <= bytes.len() {
        match part(bytes, word_at(bytes, i + 16), word_at(bytes, i + 20)) {
            Some(input) => Some(
                WireInput {
                    player: long_at(bytes, i) as u64,
                    nid: long_at(bytes, i + 8) as u64,
                    input,
                },
            ),
            None => None,
        }
    } else {
        None
    }
}

/// The `count` inputs whose fixed parts start at `start`.
pub open spec fn inputs_at(bytes: Seq<u8>, start: nat, count: nat) -> Option<Seq<WireInput>>
    decreases count,
{
    if count == 0 {
        Some(Seq::empty())
    } else {
        let last = (count - 1) as nat;
        match (inputs_at(bytes, start, last), input_at(bytes, start + INPUT_PART * last)) {
            (Some(inputs), Some(input)) => Some(inputs.push(input)),
            _ => None,
        }
    }
}

/// The message of a client that `bytes` hold; `None` where they hold none.
pub open spec fn client_read<A: Fixed>(bytes: Seq<u8>) -> Option<WireClient<A>> {
    if bytes.len() < client_part::<A>() {
        None
    } else if word_at(bytes, 0) == 0 {
        match part(bytes, word_at(bytes, 8), word_at(bytes, 4)) {
            Some(token) if vstd::utf8::valid_utf8(token) => Some(WireClient::Connect { token }),
            _ => None,
        }
    } else if word_at(bytes, 0) == 1 {
        match part(bytes, word_at(bytes, 8), word_at(bytes, 4)) {
            Some(player) => Some(WireClient::AddPlayer { player }),
            None => None,
        }
    } else if word_at(bytes, 0) == 2 {
        match inputs_at(
            bytes,
            word_at(bytes, 8 + A::size() as int),
            word_at(bytes, 4 + A::size() as int),
        ) {
            Some(inputs) => Some(WireClient::Inputs { at: A::at(bytes, 4), inputs }),
            None => None,
        }
    } else {
        None
    }
}

/// The number of a player, zero for none.
pub open spec fn number(player: Option<PlayerId>) -> u64 {
    match player {
        Some(player) => player.0,
        None => 0,
    }
}

/// `input` as it travels.
pub open spec fn sent_input(input: (Option<PlayerId>, SentInput)) -> WireInput {
    WireInput { player: number(input.0), nid: input.1.0.0, input: input.1.1.input@ }
}

/// `message` as it travels.
pub open spec fn sent_client<A>(message: ClientMessage<A, Vec<u8>, SentInput>) -> WireClient<A> {
    match message {
        ClientMessage::Connect { token } => WireClient::Connect {
            token: vstd::utf8::encode_utf8(token@),
        },
        ClientMessage::AddPlayer { player } => WireClient::AddPlayer { player: player@ },
        ClientMessage::Inputs { at, inputs } => WireClient::Inputs {
            at,
            inputs: inputs@.map_values(|input: (Option<PlayerId>, SentInput)| sent_input(input)),
        },
    }
}

/// Whether `received` is made of `input`.
pub open spec fn is_input(received: (Option<PlayerId>, PackedInput), input: WireInput) -> bool {
    &&& received.0 == (if input.player == 0 {
        None
    } else {
        Some(PlayerId(input.player))
    })
    &&& received.1.0 == (if input.nid == 0 {
        Err::<NetId, ZeroNetIdError>(ZeroNetIdError)
    } else {
        Ok(NetId(input.nid))
    })
    &&& received.1.1@ == input.input
}

/// Whether `received` is made of `message`.
pub open spec fn is_client<A>(
    received: ClientMessage<A, Vec<u8>, PackedInput>,
    message: WireClient<A>,
) -> bool {
    match (received, message) {
        (ClientMessage::Connect { token: text }, WireClient::Connect { token }) => text@
            == vstd::utf8::decode_utf8(token),
        (ClientMessage::AddPlayer { player: info }, WireClient::AddPlayer { player }) => info@
            == player,
        (
            ClientMessage::Inputs { at: steps, inputs: all },
            WireClient::Inputs { at, inputs },
        ) => {
            &&& steps == at
            &&& all@.len() == inputs.len()
            &&& forall|i: int| 0 <= i < inputs.len() ==> is_input(#[trigger] all@[i], inputs[i])
        },
        _ => false,
    }
}

/// Appends `v` in four bytes.
fn push_word(out: &mut Vec<u8>, v: usize)
    ensures
        final(out)@ == old(out)@ + word(v as nat),
{
    let ghost start = out@;
    out.push((v % 256) as u8);
    out.push((v / 256 % 256) as u8);
    out.push((v / 65536 % 256) as u8);
    out.push((v / 16777216 % 256) as u8);
    proof {
        reveal_with_fuel(codec::le_bytes, 5);
        let n = v as nat;
        assert(n / 256 / 256 == n / 65536);
        assert(n / 65536 / 256 == n / 16777216);
        assert(out@ =~= start + word(n));
    }
}

/// Appends `v` in eight bytes.
fn push_long(out: &mut Vec<u8>, v: u64)
    ensures
        final(out)@ == old(out)@ + long(v as nat),
{
    let ghost start = out@;
    let mut rest: u64 = v;
    assert(start + codec::le_bytes(v as nat, 0) =~= start);
    for i in 0..8usize
        invariant
            out@ + codec::le_bytes(rest as nat, (8 - i) as nat) == start + long(v as nat),
    {
        let ghost before = out@;
        let ghost tail = codec::le_bytes(rest as nat / 256, (8 - i - 1) as nat);
        out.push((rest % 256) as u8);
        assert(out@ + tail =~= before + (seq![(rest % 256) as u8] + tail));
        rest = rest / 256;
    }
    assert(out@ + codec::le_bytes(rest as nat, 0) =~= out@);
}

/// Appends `n` zeros.
fn push_zeros(out: &mut Vec<u8>, n: usize)
    ensures
        final(out)@ == old(out)@ + zeros(n as nat),
{
    let ghost start = out@;
    for i in 0..n
        invariant
            out@ == start + zeros(i as nat),
    {
        out.push(0);
        assert(out@ =~= start + zeros((i + 1) as nat));
    }
}

proof fn lemma_inputs_sizes(inputs: Seq<WireInput>, start: nat, n: int)
    requires
        0 <= n <= inputs.len(),
    ensures
        inputs_parts(inputs, start).len() == INPUT_PART * inputs.len(),
        inputs_data(inputs.take(n)).len() <= inputs_data(inputs).len(),
    decreases inputs.len(),
{
    if inputs.len() > 0 {
        let rest = inputs.drop_last();
        codec::le_bytes_round_trip(inputs.last().player as nat, 8);
        codec::le_bytes_round_trip(inputs.last().nid as nat, 8);
        codec::le_bytes_round_trip(start + inputs_data(rest).len(), 4);
        codec::le_bytes_round_trip(inputs.last().input.len(), 4);
        if n < inputs.len() {
            lemma_inputs_sizes(rest, start, n);
            assert(rest.take(n) =~= inputs.take(n));
        } else {
            lemma_inputs_sizes(rest, start, n - 1);
            assert(inputs.take(n) =~= inputs);
        }
    }
}

/// The bytes of a message that tells one thing of no fixed size.
fn write_blob<A: Fixed>(kind: usize, blob: &[u8]) -> (bytes: Vec<u8>)
    ensures
        bytes@ == word(kind as nat) + word(blob@.len()) + word(client_part::<A>()) + zeros(
            A::size(),
        ) + blob@,
{
    proof {
        A::bounded();
    }
    let mut bytes: Vec<u8> = Vec::new();
    push_word(&mut bytes, kind);
    push_word(&mut bytes, blob.len());
    push_word(&mut bytes, 12 + A::len());
    push_zeros(&mut bytes, A::len());
    bytes.extend_from_slice(blob);
    assert(bytes@ =~= word(kind as nat) + word(blob@.len()) + word(client_part::<A>()) + zeros(
        A::size(),
    ) + blob@);
    bytes
}

/// The bytes of inputs; `None` where they are too many for a packet.
fn write_inputs<A: Fixed>(at: &A, inputs: &Vec<(Option<PlayerId>, SentInput)>) -> (bytes: Option<
    Vec<u8>,
>)
    ensures
        ({
            let message = WireClient::Inputs {
                at: *at,
                inputs: inputs@.map_values(
                    |input: (Option<PlayerId>, SentInput)| sent_input(input),
                ),
            };
            &&& bytes is Some <==> client_bytes(message).len() <= MAX_PACKET
            &&& bytes matches Some(bytes) ==> bytes@ == client_bytes(message)
        }),
{
    let ghost all = inputs@.map_values(
        |input: (Option<PlayerId>, SentInput)| sent_input(input),
    );
    let ghost message = WireClient::Inputs { at: *at, inputs: all };
    let ghost first = client_part::<A>() + INPUT_PART as nat * all.len();
    proof {
        codec::le_bytes_round_trip(2, 4);
        A::bounded();
        at.sized();
        codec::le_bytes_round_trip(all.len(), 4);
        codec::le_bytes_round_trip(client_part::<A>(), 4);
        lemma_inputs_sizes(all, first, all.len() as int);
        assert(client_bytes(message).len() == first + inputs_data(all).len());
    }
    if inputs.len() > MAX_PACKET / INPUT_PART {
        return None;
    }
    let part: usize = 12 + A::len();
    let start: usize = part + INPUT_PART * inputs.len();
    let mut parts: Vec<u8> = Vec::new();
    let mut data: Vec<u8> = Vec::new();
    assert(all.take(0) =~= Seq::empty());
    for i in 0..inputs.len()
        invariant
            all == inputs@.map_values(
                |input: (Option<PlayerId>, SentInput)| sent_input(input),
            ),
            start <= 28 + MAX_PACKET,
            message == (WireClient::Inputs { at: *at, inputs: all }),
            client_bytes(message).len() >= inputs_data(all).len(),
            parts@ == inputs_parts(all.take(i as int), start as nat),
            data@ == inputs_data(all.take(i as int)),
            data@.len() <= MAX_PACKET,
    {
        let (pid, (nid, pack)) = &inputs[i];
        assert(all.take(i + 1).drop_last() =~= all.take(i as int));
        proof {
            lemma_inputs_sizes(all, start as nat, i + 1);
            assert(all[i as int].input == pack.input@);
        }
        if pack.input.len() > MAX_PACKET {
            return None;
        }
        let mut input: Vec<u8> = Vec::new();
        push_zeros(&mut input, pack.input.len());
        let player: u64 = match pid {
            Some(pid) => <PlayerId as alkahest::Pack<PlayerId>>::pack(
                *pid,
                0,
                input.as_mut_slice(),
            ).0,
            None => 0,
        };
        let (number, _) = <NetId as alkahest::Pack<NetId>>::pack(*nid, 0, input.as_mut_slice());
        let (fields, used) = <&InputPack as alkahest::Pack<InputSchema>>::pack(
            pack,
            start + data.len(),
            input.as_mut_slice(),
        );
        push_long(&mut parts, player);
        push_long(&mut parts, number);
        push_word(&mut parts, fields[0] as usize);
        push_word(&mut parts, fields[1] as usize);
        assert(input@.take(used as int) =~= pack.input@);
        data.extend_from_slice(vstd::slice::slice_subrange(input.as_slice(), 0, used));
        if data.len() > MAX_PACKET {
            return None;
        }
    }
    assert(all.take(all.len() as int) =~= all);
    let mut bytes: Vec<u8> = Vec::new();
    push_word(&mut bytes, 2);
    at.push(&mut bytes);
    push_word(&mut bytes, inputs.len());
    push_word(&mut bytes, part);
    bytes.append(&mut parts);
    bytes.append(&mut data);
    assert(bytes@ =~= client_bytes(message));
    if bytes.len() > MAX_PACKET {
        return None;
    }
    Some(bytes)
}

/// The bytes of what a client sends; `None` where they are too many for a packet.
pub fn write_client_message<A: Fixed>(message: &ClientMessage<A, Vec<u8>, SentInput>) -> (bytes:
    Option<Vec<u8>>)
    ensures
        bytes is Some <==> client_bytes(sent_client(*message)).len() <= MAX_PACKET,
        bytes matches Some(bytes) ==> bytes@ == client_bytes(sent_client(*message)),
{
    let bytes = match message {
        ClientMessage::Connect { token } => write_blob::<A>(0, token.as_str().as_bytes()),
        ClientMessage::AddPlayer { player } => write_blob::<A>(1, player.as_slice()),
        ClientMessage::Inputs { at, inputs } => {
            return write_inputs(at, inputs);
        },
    };
    if bytes.len() > MAX_PACKET {
        None
    } else {
        Some(bytes)
    }
}

/// Calls `std::string::String::from_utf8`. The contract claims that it succeeds exactly where the
/// bytes are valid UTF-8, and then gives the text that they encode.
#[verifier::external_body]
fn text(bytes: Vec<u8>) -> (text: Option<String>)
    ensures
        text is Some <==> vstd::utf8::valid_utf8(bytes@),
        text is Some ==> text->Some_0@ == vstd::utf8::decode_utf8(bytes@),
{
    String::from_utf8(bytes).ok()
}

/// Reads four bytes at `i`.
fn read_word(bytes: &[u8], i: usize) -> (v: u32)
    requires
        i + 4 <= bytes@.len(),
    ensures
        v == word_at(bytes@, i as int),
{
    proof {
        let s = bytes@.subrange(i as int, i + 4);
        reveal_with_fuel(codec::le_value, 5);
        assert(s.skip(1).skip(1) =~= s.skip(2));
        assert(s.skip(2).skip(1) =~= s.skip(3));
        assert(s.skip(3).skip(1) =~= s.skip(4));
    }
    bytes[i] as u32 + 256 * (bytes[i + 1] as u32) + 65536 * (bytes[i + 2] as u32) + 16777216 * (
    bytes[i + 3] as u32)
}

/// Reads eight bytes at `i`.
fn read_long(bytes: &[u8], i: usize) -> (v: u64)
    requires
        i + 8 <= bytes@.len(),
    ensures
        v == long_at(bytes@, i as int),
{
    let total: usize = bytes.len();
    assert(i + 8 <= total);
    let low: u32 = read_word(bytes, i);
    let high: u32 = read_word(bytes, i + 4);
    proof {
        let s = bytes@.subrange(i as int, i + 8);
        lemma_le_value_split(s, 4);
        assert(s.take(4) =~= bytes@.subrange(i as int, i + 4));
        assert(s.skip(4) =~= bytes@.subrange(i + 4, i + 8));
        reveal_with_fuel(codec::bytes_limit, 5);
    }
    low as u64 + 4294967296 * (high as u64)
}

proof fn lemma_le_value_split(s: Seq<u8>, k: nat)
    requires
        k <= s.len(),
    ensures
        codec::le_value(s) == codec::le_value(s.take(k as int)) + codec::bytes_limit(k)
            * codec::le_value(s.skip(k as int)),
    decreases k,
{
    if k == 0 {
        assert(s.skip(0) =~= s);
        let v = codec::le_value(s) as int;
        assert(codec::bytes_limit(0) * v == v) by (nonlinear_arith)
            requires
                codec::bytes_limit(0) == 1,
        ;
    } else {
        let t = s.skip(1);
        lemma_le_value_split(t, (k - 1) as nat);
        assert(s.take(k as int).skip(1) =~= t.take(k - 1));
        assert(t.skip(k - 1) =~= s.skip(k as int));
        let a = codec::le_value(t.take(k - 1)) as int;
        let b = codec::bytes_limit((k - 1) as nat) as int;
        let c = codec::le_value(s.skip(k as int)) as int;
        let d = codec::bytes_limit(k) as int;
        assert(256 * (a + b * c) == 256 * a + d * c) by (nonlinear_arith)
            requires
                d == 256 * b,
        ;
        assert(s.take(k as int)[0] == s[0]);
    }
}

/// The `len` bytes at `offset`, where there are as many.
fn read_part(bytes: &[u8], offset: u32, len: u32) -> (found: Option<Vec<u8>>)
    ensures
        match part(bytes@, offset as nat, len as nat) {
            Some(part) => found is Some && found->Some_0@ == part,
            None => found is None,
        },
{
    if offset as u64 + len as u64 > bytes.len() as u64 {
        return None;
    }
    let rest = <InputSchema as alkahest::Schema>::unpack([offset, len], bytes);
    let mut found: Vec<u8> = Vec::new();
    found.extend_from_slice(rest);
    assert(found@ =~= rest@);
    Some(found)
}

/// Reads the input whose fixed part stands at `i`.
fn read_input(bytes: &[u8], i: usize) -> (input: Option<(Option<PlayerId>, PackedInput)>)
    requires
        i <= usize::MAX - INPUT_PART,
    ensures
        match input_at(bytes@, i as int) {
            Some(wire) => input is Some && is_input(input->Some_0, wire),
            None => input is None,
        },
{
    if i + INPUT_PART > bytes.len() {
        return None;
    }
    let player: u64 = read_long(bytes, i);
    let nid: u64 = read_long(bytes, i + 8);
    match read_part(bytes, read_word(bytes, i + 16), read_word(bytes, i + 20)) {
        Some(data) => Some(
            (
                <PlayerId as alkahest::Schema>::unpack(player, bytes),
                (<NetId as alkahest::Schema>::unpack(nid, bytes), data),
            ),
        ),
        None => None,
    }
}

proof fn lemma_inputs_missing(bytes: Seq<u8>, start: nat, count: nat, total: nat)
    requires
        count <= total,
        inputs_at(bytes, start, count) is None,
    ensures
        inputs_at(bytes, start, total) is None,
    decreases total - count,
{
    if count < total {
        lemma_inputs_missing(bytes, start, count + 1, total);
    }
}

/// Reads the `count` inputs whose fixed parts start at `start`.
fn read_inputs(bytes: &[u8], start: u32, count: u32) -> (inputs: Option<
    Vec<(Option<PlayerId>, PackedInput)>,
>)
    ensures
        match inputs_at(bytes@, start as nat, count as nat) {
            Some(wire) => {
                &&& inputs is Some
                &&& inputs->Some_0@.len() == wire.len()
                &&& forall|i: int|
                    0 <= i < wire.len() ==> is_input(#[trigger] inputs->Some_0@[i], wire[i])
            },
            None => inputs is None,
        },
{
    let total: usize = bytes.len();
    let mut inputs: Vec<(Option<PlayerId>, PackedInput)> = Vec::new();
    let mut k: u32 = 0;
    let mut at: usize = start as usize;
    while k < count
        invariant
            total == bytes@.len(),
            k <= count,
            at == start + INPUT_PART * k,
            inputs_at(bytes@, start as nat, k as nat) is Some,
            inputs@.len() == inputs_at(bytes@, start as nat, k as nat)->Some_0.len(),
            forall|i: int|
                0 <= i < inputs@.len() ==> is_input(
                    #[trigger] inputs@[i],
                    inputs_at(bytes@, start as nat, k as nat)->Some_0[i],
                ),
        decreases count - k,
    {
        let ghost next = (k + 1) as nat;
        if at > total {
            proof {
                assert(input_at(bytes@, at as int) is None);
                assert(inputs_at(bytes@, start as nat, next) is None);
                lemma_inputs_missing(bytes@, start as nat, next, count as nat);
            }
            return None;
        }
        if total - at < INPUT_PART {
            proof {
                assert(input_at(bytes@, at as int) is None);
                assert(inputs_at(bytes@, start as nat, next) is None);
                lemma_inputs_missing(bytes@, start as nat, next, count as nat);
            }
            return None;
        }
        match read_input(bytes, at) {
            Some(input) => {
                inputs.push(input);
            },
            None => {
                proof {
                    assert(inputs_at(bytes@, start as nat, next) is None);
                    lemma_inputs_missing(bytes@, start as nat, next, count as nat);
                }
                return None;
            },
        }
        k = k + 1;
        at = at + INPUT_PART;
    }
    Some(inputs)
}

/// Reads what a client sent; `None` where `bytes` hold no message.
pub fn read_client_message<A: Fixed>(bytes: &[u8]) -> (message: Option<
    ClientMessage<A, Vec<u8>, PackedInput>,
>)
    ensures
        match client_read::<A>(bytes@) {
            Some(wire) => message is Some && is_client(message->Some_0, wire),
            None => message is None,
        },
{
    proof {
        A::bounded();
    }
    let size: usize = A::len();
    if bytes.len() < 12 + size {
        return None;
    }
    let kind: u32 = read_word(bytes, 0);
    if kind == 0 {
        match read_part(bytes, read_word(bytes, 8), read_word(bytes, 4)) {
            Some(token) => match text(token) {
                Some(token) => Some(ClientMessage::Connect { token }),
                None => None,
            },
            None => None,
        }
    } else if kind == 1 {
        match read_part(bytes, read_word(bytes, 8), read_word(bytes, 4)) {
            Some(player) => Some(ClientMessage::AddPlayer { player }),
            None => None,
        }
    } else if kind == 2 {
        let at = A::read(bytes, 4);
        match read_inputs(bytes, read_word(bytes, 8 + size), read_word(bytes, 4 + size)) {
            Some(inputs) => Some(ClientMessage::Inputs { at, inputs }),
            None => None,
        }
    } else {
        None
    }
}

/// What a server sends, as it travels.
pub enum WireServer<H> {
    Connected { hello: H },
    PlayerJoined { player: u64 },
    Updates { server_step: u64, updated: nat, removed: nat, body: Seq<u8> },
}

/// The bytes of `message`.
pub open spec fn server_bytes<H: Fixed>(message: WireServer<H>) -> Seq<u8> {
    match message {
        WireServer::Connected { hello } => word(0) + hello.bytes(),
        WireServer::PlayerJoined { player } => word(1) + long(player as nat) + zeros(
            (H::size() - 8) as nat,
        ),
        WireServer::Updates { server_step, updated, removed, body } => word(2) + long(
            server_step as nat,
        ) + word(SERVER_PART as nat) + word(updated) + word(removed) + body,
    }
}

/// The message of a server that `bytes` hold; `None` where they hold none. Of an update the bytes
/// are taken to the end.
pub open spec fn server_read<H: Fixed>(bytes: Seq<u8>) -> Option<WireServer<H>> {
    if bytes.len() < server_reply::<H>() {
        None
    } else if word_at(bytes, 0) == 0 {
        Some(WireServer::Connected { hello: H::at(bytes, 4) })
    } else if word_at(bytes, 0) == 1 {
        Some(WireServer::PlayerJoined { player: long_at(bytes, 4) as u64 })
    } else if word_at(bytes, 0) == 2 && bytes.len() >= SERVER_PART && word_at(bytes, 12)
        <= bytes.len() {
        Some(
            WireServer::Updates {
                server_step: long_at(bytes, 4) as u64,
                updated: word_at(bytes, 16),
                removed: word_at(bytes, 20),
                body: bytes.skip(word_at(bytes, 12) as int),
            },
        )
    } else {
        None
    }
}

/// `message` as it travels.
pub open spec fn sent_server<H>(
    message: ServerMessage<H, PlayerId, WorldReplicaPack>,
) -> WireServer<H> {
    match message {
        ServerMessage::Connected(hello) => WireServer::Connected { hello },
        ServerMessage::PlayerJoined { info } => WireServer::PlayerJoined { player: info.0 },
        ServerMessage::Updates { server_step, updates } => WireServer::Updates {
            server_step,
            updated: updates.updated as nat,
            removed: updates.removed@.len(),
            body: updates.body@,
        },
    }
}

/// Whether the counts of `message` can be told.
pub open spec fn countable<H>(message: WireServer<H>) -> bool {
    message matches WireServer::Updates { updated, removed, .. } ==> updated <= u32::MAX && removed
        <= u32::MAX
}

/// Whether `received` is made of `message`.
pub open spec fn is_server<H>(
    received: ServerMessage<H, Option<PlayerId>, WorldUnpacked<'_>>,
    message: WireServer<H>,
) -> bool {
    match (received, message) {
        (ServerMessage::Connected(got), WireServer::Connected { hello }) => got == hello,
        (ServerMessage::PlayerJoined { info }, WireServer::PlayerJoined { player }) => info == (
        if player == 0 {
            None
        } else {
            Some(PlayerId(player))
        }),
        (
            ServerMessage::Updates { server_step: at, updates },
            WireServer::Updates { server_step, updated, removed, body },
        ) => {
            &&& at == server_step
            &&& updates.updated == updated
            &&& updates.removed == removed
            &&& updates.raw@ == body
        },
        _ => false,
    }
}

/// The bytes of what a server sends; `None` where they are too many for a packet.
pub fn write_server_message<H: Fixed>(
    message: &ServerMessage<H, PlayerId, WorldReplicaPack>,
) -> (bytes: Option<Vec<u8>>)
    ensures
        bytes is Some <==> server_bytes(sent_server(*message)).len() <= MAX_PACKET && countable(
            sent_server(*message),
        ),
        bytes matches Some(bytes) ==> bytes@ == server_bytes(sent_server(*message)),
{
    let mut bytes: Vec<u8> = Vec::new();
    match message {
        ServerMessage::Connected(hello) => {
            push_word(&mut bytes, 0);
            hello.push(&mut bytes);
        },
        ServerMessage::PlayerJoined { info } => {
            push_word(&mut bytes, 1);
            let mut none: Vec<u8> = Vec::new();
            let (number, _) = <PlayerId as alkahest::Pack<PlayerId>>::pack(
                *info,
                0,
                none.as_mut_slice(),
            );
            push_long(&mut bytes, number);
            proof {
                H::bounded();
            }
            push_zeros(&mut bytes, H::len() - 8);
        },
        ServerMessage::Updates { server_step, updates } => {
            if updates.updated as u64 > u32::MAX as u64 || updates.removed.len() as u64
                > u32::MAX as u64 {
                return None;
            }
            push_word(&mut bytes, 2);
            push_long(&mut bytes, *server_step);
            let mut body: Vec<u8> = Vec::new();
            push_zeros(&mut body, updates.body.len());
            let (fields, used) = <&WorldReplicaPack as alkahest::Pack<WorldSchema>>::pack(
                updates,
                SERVER_PART,
                body.as_mut_slice(),
            );
            push_word(&mut bytes, fields[0] as usize);
            push_word(&mut bytes, fields[1] as usize);
            push_word(&mut bytes, fields[2] as usize);
            assert(body@.take(used as int) =~= updates.body@);
            bytes.extend_from_slice(vstd::slice::slice_subrange(body.as_slice(), 0, used));
        },
    }
    assert(bytes@ =~= server_bytes(sent_server(*message)));
    if bytes.len() > MAX_PACKET {
        None
    } else {
        Some(bytes)
    }
}

/// Reads what a server sent; `None` where `bytes` hold no message.
pub fn read_server_message<'a, H: Fixed>(bytes: &'a [u8]) -> (message: Option<
    ServerMessage<H, Option<PlayerId>, WorldUnpacked<'a>>,
>)
    ensures
        match server_read::<H>(bytes@) {
            Some(wire) => message is Some && is_server(message->Some_0, wire),
            None => message is None,
        },
{
    proof {
        H::bounded();
    }
    if bytes.len() < 4 + H::len() {
        return None;
    }
    let kind: u32 = read_word(bytes, 0);
    let first: u64 = read_long(bytes, 4);
    if kind == 0 {
        Some(ServerMessage::Connected(H::read(bytes, 4)))
    } else if kind == 1 {
        Some(
            ServerMessage::PlayerJoined {
                info: <PlayerId as alkahest::Schema>::unpack(first, bytes),
            },
        )
    } else if kind == 2 && bytes.len() >= SERVER_PART {
        let offset: u32 = read_word(bytes, 12);
        let updated: u32 = read_word(bytes, 16);
        let removed: u32 = read_word(bytes, 20);
        if offset as u64 > bytes.len() as u64 {
            return None;
        }
        let updates = <WorldSchema as alkahest::Schema>::unpack(
            [offset, updated, removed],
            bytes,
        );
        Some(ServerMessage::Updates { server_step: first, updates })
    } else {
        None
    }
}

proof fn lemma_word(bytes: Seq<u8>, i: int, v: nat)
    requires
        0 <= i,
        i + 4 <= bytes.len(),
        bytes.subrange(i, i + 4) == word(v),
        v <= u32::MAX,
    ensures
        word_at(bytes, i) == v,
{
    codec::le_bytes_round_trip(v, 4);
    reveal_with_fuel(codec::bytes_limit, 5);
}

proof fn lemma_long(bytes: Seq<u8>, i: int, v: u64)
    requires
        0 <= i,
        i + 8 <= bytes.len(),
        bytes.subrange(i, i + 8) == long(v as nat),
    ensures
        long_at(bytes, i) == v,
{
    codec::le_bytes_round_trip(v as nat, 8);
    reveal_with_fuel(codec::bytes_limit, 9);
}

proof fn lemma_word_len(v: nat)
    ensures
        word(v).len() == 4,
        long(v).len() == 8,
{
    codec::le_bytes_round_trip(v, 4);
    codec::le_bytes_round_trip(v, 8);
}

/// A server's message is read as it was written. Bytes that follow an update stay behind it.
pub proof fn server_round_trip<H: Fixed>(message: WireServer<H>, rest: Seq<u8>)
    requires
        countable(message),
    ensures
        server_read::<H>(server_bytes(message) + rest) == Some(
            match message {
                WireServer::Updates { server_step, updated, removed, body } => WireServer::Updates {
                    server_step,
                    updated,
                    removed,
                    body: body + rest,
                },
                _ => message,
            },
        ),
{
    let bytes = server_bytes(message) + rest;
    H::bounded();
    match message {
        WireServer::Connected { hello } => {
            lemma_word_len(0);
            hello.sized();
            assert(bytes.subrange(0, 4) =~= word(0));
            assert(bytes.subrange(4, 4 + H::size() as int) =~= hello.bytes());
            lemma_word(bytes, 0, 0);
            hello.round_trip(bytes, 4);
        },
        WireServer::PlayerJoined { player } => {
            lemma_word_len(1);
            lemma_word_len(player as nat);
            assert(bytes.subrange(0, 4) =~= word(1));
            assert(bytes.subrange(4, 12) =~= long(player as nat));
            lemma_word(bytes, 0, 1);
            lemma_long(bytes, 4, player);
        },
        WireServer::Updates { server_step, updated, removed, body } => {
            lemma_word_len(2);
            lemma_word_len(server_step as nat);
            lemma_word_len(SERVER_PART as nat);
            lemma_word_len(updated);
            lemma_word_len(removed);
            assert(bytes.subrange(0, 4) =~= word(2));
            assert(bytes.subrange(4, 12) =~= long(server_step as nat));
            assert(bytes.subrange(12, 16) =~= word(SERVER_PART as nat));
            assert(bytes.subrange(16, 20) =~= word(updated));
            assert(bytes.subrange(20, 24) =~= word(removed));
            lemma_word(bytes, 0, 2);
            lemma_long(bytes, 4, server_step);
            lemma_word(bytes, 12, SERVER_PART as nat);
            lemma_word(bytes, 16, updated);
            lemma_word(bytes, 20, removed);
            assert(bytes.skip(24) =~= body + rest);
        },
    }
}

proof fn lemma_inputs_read(
    bytes: Seq<u8>,
    head: Seq<u8>,
    inputs: Seq<WireInput>,
    start: nat,
    tail: Seq<u8>,
)
    requires
        bytes == head + inputs_parts(inputs, start) + tail,
        bytes.len() <= u32::MAX,
        start + inputs_data(inputs).len() <= bytes.len(),
        bytes.subrange(start as int, (start + inputs_data(inputs).len()) as int) == inputs_data(
            inputs,
        ),
    ensures
        inputs_at(bytes, head.len(), inputs.len()) == Some(inputs),
    decreases inputs.len(),
{
    if inputs.len() > 0 {
        let firsts = inputs.drop_last();
        let last = inputs.last();
        let begin = start + inputs_data(firsts).len();
        let own = long(last.player as nat) + long(last.nid as nat) + word(begin) + word(
            last.input.len(),
        );
        lemma_word_len(last.player as nat);
        lemma_word_len(last.nid as nat);
        lemma_word_len(begin);
        lemma_word_len(last.input.len());
        lemma_inputs_sizes(firsts, start, 0);
        assert(bytes =~= head + inputs_parts(firsts, start) + (own + tail));
        let whole = bytes.subrange(
            start as int,
            (start + inputs_data(inputs).len()) as int,
        );
        assert(bytes.subrange(start as int, begin as int) =~= inputs_data(firsts)) by {
            assert(whole.take(inputs_data(firsts).len() as int) =~= inputs_data(firsts));
        }
        lemma_inputs_read(bytes, head, firsts, start, own + tail);
        let i = (head.len() + INPUT_PART * firsts.len()) as int;
        assert(bytes.subrange(i, i + 8) =~= long(last.player as nat));
        assert(bytes.subrange(i + 8, i + 16) =~= long(last.nid as nat));
        assert(bytes.subrange(i + 16, i + 20) =~= word(begin));
        assert(bytes.subrange(i + 20, i + 24) =~= word(last.input.len()));
        lemma_long(bytes, i, last.player);
        lemma_long(bytes, i + 8, last.nid);
        lemma_word(bytes, i + 16, begin);
        lemma_word(bytes, i + 20, last.input.len());
        assert(bytes.subrange(begin as int, (begin + last.input.len()) as int) =~= last.input) by {
            assert(whole.skip(inputs_data(firsts).len() as int) =~= last.input);
        }
        assert(inputs =~= firsts.push(last));
    }
}

/// A client's message is read as it was written, whatever bytes follow.
pub proof fn client_round_trip<A: Fixed>(message: WireClient<A>, rest: Seq<u8>)
    requires
        message matches WireClient::Connect { token } ==> vstd::utf8::valid_utf8(token),
        (client_bytes(message) + rest).len() <= u32::MAX,
    ensures
        client_read::<A>(client_bytes(message) + rest) == Some(message),
{
    let bytes = client_bytes(message) + rest;
    let part = client_part::<A>();
    let size = A::size() as int;
    A::bounded();
    match message {
        WireClient::Connect { token } => {
            lemma_word_len(0);
            lemma_word_len(token.len());
            lemma_word_len(part);
            assert(bytes.subrange(0, 4) =~= word(0));
            assert(bytes.subrange(4, 8) =~= word(token.len()));
            assert(bytes.subrange(8, 12) =~= word(part));
            lemma_word(bytes, 0, 0);
            lemma_word(bytes, 4, token.len());
            lemma_word(bytes, 8, part);
            assert(bytes.subrange(part as int, (part + token.len()) as int) =~= token);
        },
        WireClient::AddPlayer { player } => {
            lemma_word_len(1);
            lemma_word_len(player.len());
            lemma_word_len(part);
            assert(bytes.subrange(0, 4) =~= word(1));
            assert(bytes.subrange(4, 8) =~= word(player.len()));
            assert(bytes.subrange(8, 12) =~= word(part));
            lemma_word(bytes, 0, 1);
            lemma_word(bytes, 4, player.len());
            lemma_word(bytes, 8, part);
            assert(bytes.subrange(part as int, (part + player.len()) as int) =~= player);
        },
        WireClient::Inputs { at, inputs } => {
            let start = part + INPUT_PART as nat * inputs.len();
            let head = word(2) + at.bytes() + word(inputs.len()) + word(part);
            let tail = inputs_data(inputs) + rest;
            lemma_word_len(2);
            at.sized();
            lemma_word_len(inputs.len());
            lemma_word_len(part);
            lemma_inputs_sizes(inputs, start, 0);
            assert(bytes =~= head + inputs_parts(inputs, start) + tail);
            assert(bytes.subrange(0, 4) =~= word(2));
            assert(bytes.subrange(4, 4 + size) =~= at.bytes());
            assert(bytes.subrange(4 + size, 8 + size) =~= word(inputs.len()));
            assert(bytes.subrange(8 + size, 12 + size) =~= word(part));
            lemma_word(bytes, 0, 2);
            at.round_trip(bytes, 4);
            lemma_word(bytes, 4 + size, inputs.len());
            lemma_word(bytes, 8 + size, part);
            assert(bytes.subrange(
                start as int,
                (start + inputs_data(inputs).len()) as int,
            ) =~= inputs_data(inputs));
            lemma_inputs_read(bytes, head, inputs, start, tail);
        },
    }
}

/// Commands reach the server: the inputs that a client sends come out for the same players and
/// entities, in the same order, with the same bytes.
pub proof fn commands_arrive(
    sent: Seq<(PlayerId, SentInput)>,
    received: Seq<(Option<PlayerId>, PackedInput)>,
)
    requires
        forall|i: int|
            0 <= i < sent.len() ==> (#[trigger] sent[i]).0.0 != 0 && sent[i].1.0.0 != 0,
        received.len() == sent.len(),
        forall|i: int|
            0 <= i < received.len() ==> is_input(
                #[trigger] received[i],
                sent_input((Some(sent[i].0), sent[i].1)),
            ),
    ensures
        crate::client_server::server::of_players(received).len() == sent.len(),
        forall|i: int|
            0 <= i < sent.len() ==> {
                let (player, (nid, input)) = #[trigger] crate::client_server::server::of_players(
                    received,
                )[i];
                &&& player == sent[i].0
                &&& nid == Ok::<NetId, ZeroNetIdError>(sent[i].1.0)
                &&& input@ == sent[i].1.1.input@
            },
    decreases sent.len(),
{
    if sent.len() > 0 {
        let firsts = sent.drop_last();
        let before = received.drop_last();
        assert forall|i: int| 0 <= i < before.len() implies is_input(
            #[trigger] before[i],
            sent_input((Some(firsts[i].0), firsts[i].1)),
        ) by {
            assert(received[i] == before[i]);
            assert(sent[i] == firsts[i]);
        }
        assert forall|i: int| 0 <= i < firsts.len() implies (#[trigger] firsts[i]).0.0 != 0
            && firsts[i].1.0.0 != 0 by {
            assert(sent[i] == firsts[i]);
        }
        commands_arrive(firsts, before);
        let n = sent.len() - 1;
        assert(is_input(received[n], sent_input((Some(sent[n].0), sent[n].1))));
        assert(received.last() == received[n]);
    }
}

/// The fixed parts of inputs have the same size each.
pub proof fn inputs_sizes(inputs: Seq<WireInput>, start: nat)
    ensures
        inputs_parts(inputs, start).len() == INPUT_PART * inputs.len(),
{
    lemma_inputs_sizes(inputs, start, inputs.len() as int);
}

/// The bytes of an input stand behind the fixed parts of all.
pub proof fn inputs_have_places<A: Fixed>(at: A, inputs: Seq<WireInput>, k: int)
    requires
        0 <= k < inputs.len(),
        client_bytes(WireClient::<A>::Inputs { at, inputs }).len() <= u32::MAX,
    ensures
        word_at(
            client_bytes(WireClient::<A>::Inputs { at, inputs }),
            client_part::<A>() + INPUT_PART * k + 16,
        ) >= client_part::<A>() + INPUT_PART * inputs.len(),
        word_at(
            client_bytes(WireClient::<A>::Inputs { at, inputs }),
            client_part::<A>() + INPUT_PART * k + 20,
        ) == inputs[k].input.len(),
{
    let bytes = client_bytes(WireClient::<A>::Inputs { at, inputs });
    let start = client_part::<A>() + INPUT_PART as nat * inputs.len();
    let head = word(2) + at.bytes() + word(inputs.len()) + word(client_part::<A>());
    at.sized();
    lemma_word_len(2);
    lemma_word_len(inputs.len());
    lemma_word_len(client_part::<A>());
    lemma_inputs_sizes(inputs, start, 0);
    assert(bytes =~= head + inputs_parts(inputs, start) + inputs_data(inputs));
    lemma_place(bytes, head, inputs, start, inputs_data(inputs), k);
}

proof fn lemma_place(
    bytes: Seq<u8>,
    head: Seq<u8>,
    inputs: Seq<WireInput>,
    start: nat,
    tail: Seq<u8>,
    k: int,
)
    requires
        0 <= k < inputs.len(),
        bytes == head + inputs_parts(inputs, start) + tail,
        start + inputs_data(inputs).len() <= u32::MAX,
    ensures
        word_at(bytes, head.len() + INPUT_PART * k + 16) >= start,
        word_at(bytes, head.len() + INPUT_PART * k + 20) == inputs[k].input.len(),
    decreases inputs.len(),
{
    let firsts = inputs.drop_last();
    let last = inputs.last();
    let begin = start + inputs_data(firsts).len();
    let own = long(last.player as nat) + long(last.nid as nat) + word(begin) + word(
        last.input.len(),
    );
    lemma_word_len(last.player as nat);
    lemma_word_len(last.nid as nat);
    lemma_word_len(begin);
    lemma_word_len(last.input.len());
    lemma_inputs_sizes(firsts, start, 0);
    assert(bytes =~= head + inputs_parts(firsts, start) + (own + tail));
    if k < firsts.len() {
        lemma_place(bytes, head, firsts, start, own + tail, k);
    } else {
        let i = (head.len() + INPUT_PART * k) as int;
        assert(bytes.subrange(i + 16, i + 20) =~= word(begin));
        assert(bytes.subrange(i + 20, i + 24) =~= word(last.input.len()));
        lemma_word(bytes, i + 16, begin);
        lemma_word(bytes, i + 20, last.input.len());
    }
}

} // verus!
