//! Which bytes messages are, and what is read of them: the laws of messages, stated of what the
//! functions are given and give.

use crate::channel::tcp;
use crate::client::system::SentInput;
use crate::client_server::{ClientMessage, Connected, InputStep, PlayerId, ServerMessage};
use crate::client_server::client::TimedConnected;
use crate::codec;
use crate::nid::{NetId, ZeroNetIdError};
use crate::schema::WorldUnpacked;
use crate::server::replicas::WorldReplicaPack;
use crate::server::system::PackedInput;
use crate::wire::{self, Fixed, WireClient, WireInput};
use vstd::prelude::*;

verus! {

/// What takes a fixed number of bytes is one number of eight bytes or two of them.
pub proof fn fixed_values_are_numbers(
    step: u64,
    hello: Connected,
    at: InputStep,
    timed: TimedConnected,
)
    ensures
        <u64 as Fixed>::size() == 8,
        <Connected as Fixed>::size() == 8,
        <InputStep as Fixed>::size() == 16,
        <TimedConnected as Fixed>::size() == 16,
        codec::le_value(step.bytes()) == step,
        codec::le_value(hello.bytes()) == hello.step,
        codec::le_value(at.bytes().take(8)) == at.step,
        codec::le_value(at.bytes().skip(8)) == at.next_update_step,
        codec::le_value(timed.bytes().take(8)) == timed.step,
        codec::le_value(timed.bytes().skip(8)) == timed.step_delta_ns,
        step.bytes().len() == 8,
        hello.bytes().len() == 8,
        at.bytes().len() == 16,
        timed.bytes().len() == 16,
{
    reveal_with_fuel(codec::bytes_limit, 9);
    codec::le_bytes_round_trip(step as nat, 8);
    codec::le_bytes_round_trip(hello.step as nat, 8);
    codec::le_bytes_round_trip(at.step as nat, 8);
    codec::le_bytes_round_trip(at.next_update_step as nat, 8);
    codec::le_bytes_round_trip(timed.step as nat, 8);
    codec::le_bytes_round_trip(timed.step_delta_ns as nat, 8);
    assert(at.bytes().take(8) =~= wire::long(at.step as nat));
    assert(at.bytes().skip(8) =~= wire::long(at.next_update_step as nat));
    assert(timed.bytes().take(8) =~= wire::long(timed.step as nat));
    assert(timed.bytes().skip(8) =~= wire::long(timed.step_delta_ns as nat));
}

/// How many bytes all of `inputs` have.
pub open spec fn bytes_in_all(inputs: Seq<(Option<PlayerId>, SentInput)>) -> nat
    decreases inputs.len(),
{
    if inputs.len() == 0 {
        0
    } else {
        bytes_in_all(inputs.drop_last()) + inputs.last().1.1.input@.len()
    }
}

/// `bytes` begin with the number of a kind and two numbers more, four bytes each.
pub open spec fn begins(bytes: Seq<u8>, kind: nat, first: nat, second: nat) -> bool {
    &&& bytes.len() >= 12
    &&& codec::le_value(bytes.subrange(0, 4)) == kind
    &&& codec::le_value(bytes.subrange(4, 8)) == first
    &&& codec::le_value(bytes.subrange(8, 12)) == second
}

proof fn lemma_begins(bytes: Seq<u8>, kind: nat, first: nat, second: nat, rest: Seq<u8>)
    requires
        bytes == wire::word(kind) + wire::word(first) + wire::word(second) + rest,
        kind <= u32::MAX,
        first <= u32::MAX,
        second <= u32::MAX,
    ensures
        begins(bytes, kind, first, second),
        bytes.skip(12) == rest,
{
    reveal_with_fuel(codec::bytes_limit, 5);
    codec::le_bytes_round_trip(kind, 4);
    codec::le_bytes_round_trip(first, 4);
    codec::le_bytes_round_trip(second, 4);
    assert(bytes.subrange(0, 4) =~= wire::word(kind));
    assert(bytes.subrange(4, 8) =~= wire::word(first));
    assert(bytes.subrange(8, 12) =~= wire::word(second));
    assert(bytes.skip(12) =~= rest);
}

/// A token or a player's info stands behind the fixed part, which tells its kind, its size and
/// where it stands, and is zero beyond that. It is written exactly where it fits in a packet.
pub proof fn blobs_stand_behind_the_fixed_part<A: Fixed>(
    message: ClientMessage<A, Vec<u8>, SentInput>,
    bytes: Option<Vec<u8>>,
)
    requires
        call_ensures(wire::write_client_message::<A>, (&message,), bytes),
        !(message is Inputs),
    ensures
        ({
            let blob = match message {
                ClientMessage::Connect { token } => vstd::utf8::encode_utf8(token@),
                ClientMessage::AddPlayer { player } => player@,
                ClientMessage::Inputs { .. } => Seq::empty(),
            };
            let part = (12 + A::size()) as int;
            &&& bytes is Some <==> part + blob.len() <= 65528
            &&& bytes matches Some(bytes) ==> {
                &&& bytes@.len() == part + blob.len()
                &&& begins(
                    bytes@,
                    (if message is Connect {
                        0nat
                    } else {
                        1nat
                    }),
                    blob.len(),
                    part as nat,
                )
                &&& forall|i: int| 12 <= i < part ==> #[trigger] bytes@[i] == 0
                &&& bytes@.skip(part) == blob
            }
        }),
{
    let blob = match message {
        ClientMessage::Connect { token } => vstd::utf8::encode_utf8(token@),
        ClientMessage::AddPlayer { player } => player@,
        ClientMessage::Inputs { .. } => Seq::empty(),
    };
    let kind: nat = if message is Connect {
        0
    } else {
        1
    };
    let part = 12 + A::size();
    A::bounded();
    let whole = wire::client_bytes(wire::sent_client(message));
    codec::le_bytes_round_trip(kind, 4);
    codec::le_bytes_round_trip(blob.len(), 4);
    codec::le_bytes_round_trip(part, 4);
    assert(whole =~= wire::word(kind) + wire::word(blob.len()) + wire::word(part) + (wire::zeros(
        A::size(),
    ) + blob));
    if whole.len() <= tcp::MAX_PACKET {
        lemma_begins(whole, kind, blob.len(), part, wire::zeros(A::size()) + blob);
        assert(whole.skip(part as int) =~= blob);
        assert forall|i: int| 12 <= i < part implies #[trigger] whole[i] == 0 by {
            assert(whole[i] == whole.skip(12)[i - 12]);
        }
    }
}

proof fn lemma_data(inputs: Seq<(Option<PlayerId>, SentInput)>)
    ensures
        wire::inputs_data(
            inputs.map_values(|input: (Option<PlayerId>, SentInput)| wire::sent_input(input)),
        ).len() == bytes_in_all(inputs),
    decreases inputs.len(),
{
    if inputs.len() > 0 {
        let sent = |input: (Option<PlayerId>, SentInput)| wire::sent_input(input);
        lemma_data(inputs.drop_last());
        assert(inputs.map_values(sent).drop_last() =~= inputs.drop_last().map_values(sent));
    }
}

proof fn lemma_each_input(bytes: Seq<u8>, start: nat, inputs: Seq<WireInput>, k: int)
    requires
        wire::inputs_at(bytes, start, inputs.len()) == Some(inputs),
        0 <= k < inputs.len(),
    ensures
        wire::input_at(bytes, start + wire::INPUT_PART * k) == Some(inputs[k]),
    decreases inputs.len(),
{
    let last = (inputs.len() - 1) as nat;
    let firsts = wire::inputs_at(bytes, start, last)->Some_0;
    lemma_count(bytes, start, last);
    assert(inputs == firsts.push(
        wire::input_at(bytes, start + wire::INPUT_PART * last)->Some_0,
    ));
    if k < last {
        lemma_each_input(bytes, start, firsts, k);
        assert(firsts[k] == inputs[k]);
    }
}

proof fn lemma_count(bytes: Seq<u8>, start: nat, count: nat)
    requires
        wire::inputs_at(bytes, start, count) is Some,
    ensures
        wire::inputs_at(bytes, start, count)->Some_0.len() == count,
    decreases count,
{
    if count > 0 {
        lemma_count(bytes, start, (count - 1) as nat);
    }
}

/// Inputs are written exactly where they fit in a packet: behind the time, how many they are and
/// where they stand; for each its player, its entity's id, and where its bytes stand and how many
/// they are; then the bytes of all, without gaps.
pub proof fn inputs_stand_behind_the_fixed_part<A: Fixed>(
    at: A,
    inputs: Vec<(Option<PlayerId>, SentInput)>,
    message: ClientMessage<A, Vec<u8>, SentInput>,
    bytes: Option<Vec<u8>>,
)
    requires
        message == (ClientMessage::<A, Vec<u8>, SentInput>::Inputs { at, inputs }),
        call_ensures(wire::write_client_message::<A>, (&message,), bytes),
    ensures
        ({
            let part = (12 + A::size()) as int;
            let size = part + 24 * inputs@.len() + bytes_in_all(inputs@);
            &&& bytes is Some <==> size <= 65528
            &&& bytes matches Some(bytes) ==> {
                &&& bytes@.len() == size
                &&& codec::le_value(bytes@.subrange(0, 4)) == 2
                &&& bytes@.subrange(4, part - 8) == at.bytes()
                &&& codec::le_value(bytes@.subrange(part - 8, part - 4)) == inputs@.len()
                &&& codec::le_value(bytes@.subrange(part - 4, part)) == part
                &&& forall|k: int|
                    0 <= k < inputs@.len() ==> {
                        let (player, (nid, pack)) = #[trigger] inputs@[k];
                        let i = part + 24 * k;
                        let offset = codec::le_value(bytes@.subrange(i + 16, i + 20));
                        let len = codec::le_value(bytes@.subrange(i + 20, i + 24));
                        &&& codec::le_value(bytes@.subrange(i, i + 8)) == (match player {
                            Some(player) => player.0,
                            None => 0,
                        })
                        &&& codec::le_value(bytes@.subrange(i + 8, i + 16)) == nid.0
                        &&& len == pack.input@.len()
                        &&& part + 24 * inputs@.len() <= offset
                        &&& offset + len <= bytes@.len()
                        &&& bytes@.subrange(offset as int, (offset + len) as int) == pack.input@
                    }
            }
        }),
{
    let sent = |input: (Option<PlayerId>, SentInput)| wire::sent_input(input);
    let all = inputs@.map_values(sent);
    let whole = wire::client_bytes(WireClient::<A>::Inputs { at, inputs: all });
    let part = 12 + A::size();
    A::bounded();
    lemma_data(inputs@);
    assert(wire::sent_client(message) == (WireClient::<A>::Inputs { at, inputs: all }));
    lemma_inputs_len(at, all);
    if whole.len() <= tcp::MAX_PACKET {
        lemma_inputs_head(at, all);
        assert forall|k: int| 0 <= k < inputs@.len() implies {
            let (player, (nid, pack)) = #[trigger] inputs@[k];
            let i = part + 24 * k;
            let offset = codec::le_value(whole.subrange(i + 16, i + 20));
            let len = codec::le_value(whole.subrange(i + 20, i + 24));
            &&& codec::le_value(whole.subrange(i, i + 8)) == (match player {
                Some(player) => player.0,
                None => 0,
            })
            &&& codec::le_value(whole.subrange(i + 8, i + 16)) == nid.0
            &&& len == pack.input@.len()
            &&& part + 24 * inputs@.len() <= offset
            &&& offset + len <= whole.len()
            &&& whole.subrange(offset as int, (offset + len) as int) == pack.input@
        } by {
            assert(all[k] == sent(inputs@[k]));
            lemma_placed(at, all, k);
        }
    }
}

proof fn lemma_inputs_len<A: Fixed>(at: A, all: Seq<WireInput>)
    ensures
        wire::client_bytes(WireClient::<A>::Inputs { at, inputs: all }).len() == 12 + A::size() + 24
            * all.len() + wire::inputs_data(all).len(),
{
    let part = 12 + A::size();
    at.sized();
    wire::inputs_sizes(all, part + 24 * all.len());
    codec::le_bytes_round_trip(2, 4);
    codec::le_bytes_round_trip(all.len(), 4);
    codec::le_bytes_round_trip(part, 4);
}

proof fn lemma_inputs_head<A: Fixed>(at: A, all: Seq<WireInput>)
    requires
        wire::client_bytes(WireClient::<A>::Inputs { at, inputs: all }).len() <= tcp::MAX_PACKET,
    ensures
        ({
            let whole = wire::client_bytes(WireClient::<A>::Inputs { at, inputs: all });
            let part = (12 + A::size()) as int;
            &&& codec::le_value(whole.subrange(0, 4)) == 2
            &&& whole.subrange(4, part - 8) == at.bytes()
            &&& codec::le_value(whole.subrange(part - 8, part - 4)) == all.len()
            &&& codec::le_value(whole.subrange(part - 4, part)) == part
        }),
{
    let whole = wire::client_bytes(WireClient::<A>::Inputs { at, inputs: all });
    let part = 12 + A::size();
    let size = A::size() as int;
    A::bounded();
    at.sized();
    lemma_inputs_len(at, all);
    reveal_with_fuel(codec::bytes_limit, 5);
    codec::le_bytes_round_trip(2, 4);
    codec::le_bytes_round_trip(all.len(), 4);
    codec::le_bytes_round_trip(part, 4);
    assert(whole.subrange(0, 4) =~= wire::word(2));
    assert(whole.subrange(4, 4 + size) =~= at.bytes());
    assert(whole.subrange(4 + size, 8 + size) =~= wire::word(all.len()));
    assert(whole.subrange(8 + size, 12 + size) =~= wire::word(part));
}

proof fn lemma_placed<A: Fixed>(at: A, all: Seq<WireInput>, k: int)
    requires
        0 <= k < all.len(),
        wire::client_bytes(WireClient::<A>::Inputs { at, inputs: all }).len() <= tcp::MAX_PACKET,
    ensures
        ({
            let whole = wire::client_bytes(WireClient::<A>::Inputs { at, inputs: all });
            let part = (12 + A::size()) as int;
            let i = part + 24 * k;
            let offset = codec::le_value(whole.subrange(i + 16, i + 20));
            let len = codec::le_value(whole.subrange(i + 20, i + 24));
            &&& codec::le_value(whole.subrange(i, i + 8)) == all[k].player
            &&& codec::le_value(whole.subrange(i + 8, i + 16)) == all[k].nid
            &&& len == all[k].input.len()
            &&& part + 24 * all.len() <= offset
            &&& offset + len <= whole.len()
            &&& whole.subrange(offset as int, (offset + len) as int) == all[k].input
        }),
{
    let whole = wire::client_bytes(WireClient::<A>::Inputs { at, inputs: all });
    let part = 12 + A::size();
    let i = part + 24 * k;
    A::bounded();
    wire::client_round_trip::<A>(WireClient::<A>::Inputs { at, inputs: all }, Seq::empty());
    assert(whole + Seq::<u8>::empty() =~= whole);
    lemma_inputs_head(at, all);
    assert(wire::inputs_at(whole, part, all.len()) == Some(all));
    lemma_each_input(whole, part, all, k);
    wire::inputs_have_places(at, all, k);
    reveal_with_fuel(codec::bytes_limit, 9);
    crate::layout::digits_are_bytes(whole.subrange(i as int, i + 8));
    crate::layout::digits_are_bytes(whole.subrange(i + 8, i + 16));
}

/// What a client writes is what a server reads, whatever bytes follow: the same token, the same
/// info, or the same inputs, in their order, with their time, players, ids and bytes.
pub proof fn client_messages_arrive<A: Fixed>(
    message: ClientMessage<A, Vec<u8>, SentInput>,
    bytes: Option<Vec<u8>>,
    input: &[u8],
    rest: Seq<u8>,
    got: Option<ClientMessage<A, Vec<u8>, PackedInput>>,
)
    requires
        call_ensures(wire::write_client_message::<A>, (&message,), bytes),
        bytes is Some,
        input@ == bytes->Some_0@ + rest,
        input@.len() <= u32::MAX,
        call_ensures(wire::read_client_message::<A>, (input,), got),
    ensures
        match message {
            ClientMessage::Connect { token } => got matches Some(ClientMessage::Connect {
                token: read,
            }) && read@ == token@,
            ClientMessage::AddPlayer { player } => got matches Some(ClientMessage::AddPlayer {
                player: read,
            }) && read@ == player@,
            ClientMessage::Inputs { at, inputs } => got matches Some(ClientMessage::Inputs {
                at: time,
                inputs: read,
            }) && {
                &&& time == at
                &&& read@.len() == inputs@.len()
                &&& forall|k: int|
                    0 <= k < inputs@.len() ==> {
                        let (player, (nid, pack)) = inputs@[k];
                        let (who, (what, bytes)) = #[trigger] read@[k];
                        &&& player matches Some(player) ==> (player.0 != 0 ==> who == Some(player))
                        &&& player is None ==> who is None
                        &&& nid.0 != 0 ==> what == Ok::<NetId, ZeroNetIdError>(nid)
                        &&& nid.0 == 0 ==> what is Err
                        &&& bytes@ == pack.input@
                    }
            },
        },
{
    let wired = wire::sent_client(message);
    if let ClientMessage::Connect { token } = message {
        vstd::utf8::encode_utf8_valid_utf8(token@);
        vstd::utf8::encode_utf8_decode_utf8(token@);
    }
    wire::client_round_trip::<A>(wired, rest);
    if let ClientMessage::Inputs { at, inputs } = message {
        let sent = |input: (Option<PlayerId>, SentInput)| wire::sent_input(input);
        let all = inputs@.map_values(sent);
        let read = got->Some_0->inputs@;
        assert forall|k: int| 0 <= k < inputs@.len() implies {
            let (player, (nid, pack)) = inputs@[k];
            let (who, (what, bytes)) = #[trigger] read[k];
            &&& player matches Some(player) ==> (player.0 != 0 ==> who == Some(player))
            &&& player is None ==> who is None
            &&& nid.0 != 0 ==> what == Ok::<NetId, ZeroNetIdError>(nid)
            &&& nid.0 == 0 ==> what is Err
            &&& bytes@ == pack.input@
        } by {
            assert(all[k] == sent(inputs@[k]));
            assert(wire::is_input(read[k], all[k]));
        }
    }
}

/// What is read of bytes that a client did not write: only what lies within them. Bytes that are
/// too few, or begin with no known kind, hold no message.
pub proof fn client_messages_lie_within<A: Fixed>(
    input: &[u8],
    got: Option<ClientMessage<A, Vec<u8>, PackedInput>>,
)
    requires
        call_ensures(wire::read_client_message::<A>, (input,), got),
    ensures
        input@.len() < 12 + A::size() ==> got is None,
        input@.len() >= 12 + A::size() ==> {
            let kind = codec::le_value(input@.subrange(0, 4));
            let len = codec::le_value(input@.subrange(4, 8));
            let offset = codec::le_value(input@.subrange(8, 12));
            let within = offset + len <= input@.len();
            let blob = input@.subrange(offset as int, (offset + len) as int);
            &&& kind > 2 ==> got is None
            &&& kind <= 1 && !within ==> got is None
            &&& kind == 1 && within ==> (got matches Some(ClientMessage::AddPlayer { player })
                && player@ == blob)
            &&& kind == 0 && within ==> if vstd::utf8::valid_utf8(blob) {
                got matches Some(ClientMessage::Connect { token }) && token@
                    == vstd::utf8::decode_utf8(blob)
            } else {
                got is None
            }
            &&& kind == 2 ==> (got matches Some(message) ==> (message matches ClientMessage::Inputs {
                at,
                inputs,
            } && at == A::at(input@, 4) && inputs@.len() == codec::le_value(
                input@.subrange(4 + A::size() as int, 8 + A::size() as int),
            )))
        },
{
    A::bounded();
    if input@.len() >= 12 + A::size() && codec::le_value(input@.subrange(0, 4)) == 2 {
        let start = wire::word_at(input@, 8 + A::size() as int);
        let count = wire::word_at(input@, 4 + A::size() as int);
        if wire::inputs_at(input@, start, count) is Some {
            lemma_count(input@, start, count);
        }
    }
}

/// What a server writes: a session is opened with the number of its kind and what opens it; a
/// player is answered with its number, and zeros up to the same size; an update has the step, where
/// its bytes stand, and its two counts, and then its bytes. It is written exactly where it fits in
/// a packet and its counts have no more than 32 bits.
pub proof fn server_messages_are_laid_out<H: Fixed>(
    message: ServerMessage<H, PlayerId, WorldReplicaPack>,
    bytes: Option<Vec<u8>>,
)
    requires
        call_ensures(wire::write_server_message::<H>, (&message,), bytes),
    ensures
        message matches ServerMessage::Connected(hello) ==> (bytes matches Some(bytes) && {
            &&& bytes@.len() == 4 + H::size()
            &&& codec::le_value(bytes@.subrange(0, 4)) == 0
            &&& bytes@.skip(4) == hello.bytes()
        }),
        message matches ServerMessage::PlayerJoined { info } ==> (bytes matches Some(bytes) && {
            &&& bytes@.len() == 4 + H::size()
            &&& codec::le_value(bytes@.subrange(0, 4)) == 1
            &&& codec::le_value(bytes@.subrange(4, 12)) == info.0
            &&& forall|i: int| 12 <= i < bytes@.len() ==> #[trigger] bytes@[i] == 0
        }),
        message matches ServerMessage::Updates { server_step, updates } ==> {
            &&& bytes is Some <==> 24 + updates.body@.len() <= 65528 && updates.updated
                <= 0xFFFF_FFFF && updates.removed@.len() <= 0xFFFF_FFFF
            &&& bytes matches Some(bytes) ==> {
                &&& bytes@.len() == 24 + updates.body@.len()
                &&& codec::le_value(bytes@.subrange(0, 4)) == 2
                &&& codec::le_value(bytes@.subrange(4, 12)) == server_step
                &&& codec::le_value(bytes@.subrange(12, 16)) == 24
                &&& codec::le_value(bytes@.subrange(16, 20)) == updates.updated
                &&& codec::le_value(bytes@.subrange(20, 24)) == updates.removed@.len()
                &&& bytes@.skip(24) == updates.body@
            }
        },
{
    let whole = wire::server_bytes(wire::sent_server(message));
    H::bounded();
    reveal_with_fuel(codec::bytes_limit, 9);
    match message {
        ServerMessage::Connected(hello) => {
            hello.sized();
            codec::le_bytes_round_trip(0, 4);
            assert(whole.subrange(0, 4) =~= wire::word(0));
            assert(whole.skip(4) =~= hello.bytes());
        },
        ServerMessage::PlayerJoined { info } => {
            codec::le_bytes_round_trip(1, 4);
            codec::le_bytes_round_trip(info.0 as nat, 8);
            assert(whole.subrange(0, 4) =~= wire::word(1));
            assert(whole.subrange(4, 12) =~= wire::long(info.0 as nat));
        },
        ServerMessage::Updates { server_step, updates } => {
            codec::le_bytes_round_trip(2, 4);
            codec::le_bytes_round_trip(server_step as nat, 8);
            codec::le_bytes_round_trip(24, 4);
            codec::le_bytes_round_trip(updates.updated as nat, 4);
            codec::le_bytes_round_trip(updates.removed@.len(), 4);
            assert(whole.subrange(0, 4) =~= wire::word(2));
            assert(whole.subrange(4, 12) =~= wire::long(server_step as nat));
            assert(whole.subrange(12, 16) =~= wire::word(24));
            assert(whole.subrange(16, 20) =~= wire::word(updates.updated as nat));
            assert(whole.subrange(20, 24) =~= wire::word(updates.removed@.len()));
            assert(whole.skip(24) =~= updates.body@);
        },
    }
}

/// What a server writes is what a client reads, whatever bytes follow; those stay behind an update.
pub proof fn server_messages_arrive<'a, H: Fixed>(
    message: ServerMessage<H, PlayerId, WorldReplicaPack>,
    bytes: Option<Vec<u8>>,
    input: &'a [u8],
    rest: Seq<u8>,
    got: Option<ServerMessage<H, Option<PlayerId>, WorldUnpacked<'a>>>,
)
    requires
        call_ensures(wire::write_server_message::<H>, (&message,), bytes),
        bytes is Some,
        input@ == bytes->Some_0@ + rest,
        call_ensures(wire::read_server_message::<H>, (input,), got),
    ensures
        match message {
            ServerMessage::Connected(hello) => got matches Some(ServerMessage::Connected(read))
                && read == hello,
            ServerMessage::PlayerJoined { info } => got matches Some(ServerMessage::PlayerJoined {
                info: read,
            }) && (info.0 != 0 ==> read == Some(info)) && (info.0 == 0 ==> read is None),
            ServerMessage::Updates { server_step, updates } => got matches Some(
                ServerMessage::Updates { server_step: step, updates: read },
            ) && {
                &&& step == server_step
                &&& read.updated == updates.updated
                &&& read.removed == updates.removed@.len()
                &&& read.raw@ == updates.body@ + rest
            },
        },
{
    wire::server_round_trip::<H>(wire::sent_server(message), rest);
}

/// Inputs that are read of bytes, whoever wrote them: as many as the bytes say, each with the
/// player and the id that stand in its place, and the bytes that it points to. They are read
/// exactly where all of that lies within the bytes.
pub proof fn inputs_lie_within<A: Fixed>(
    input: &[u8],
    got: Option<ClientMessage<A, Vec<u8>, PackedInput>>,
)
    requires
        call_ensures(wire::read_client_message::<A>, (input,), got),
        input@.len() >= 12 + A::size(),
        codec::le_value(input@.subrange(0, 4)) == 2,
    ensures
        ({
            let size = A::size() as int;
            let count = codec::le_value(input@.subrange(4 + size, 8 + size)) as int;
            let start = codec::le_value(input@.subrange(8 + size, 12 + size)) as int;
            &&& got is Some <==> forall|k: int| 0 <= k < count ==> #[trigger] input_lies_within(
                input@,
                start,
                k,
            )
            &&& got matches Some(message) ==> (message matches ClientMessage::Inputs { at, inputs } && {
                &&& at == A::at(input@, 4)
                &&& inputs@.len() == count
                &&& forall|k: int|
                    0 <= k < count ==> {
                        let i = start + 24 * k;
                        let offset = codec::le_value(input@.subrange(i + 16, i + 20)) as int;
                        let len = codec::le_value(input@.subrange(i + 20, i + 24)) as int;
                        let player = codec::le_value(input@.subrange(i, i + 8));
                        let nid = codec::le_value(input@.subrange(i + 8, i + 16));
                        let (who, (what, bytes)) = #[trigger] inputs@[k];
                        &&& player == 0 ==> who is None
                        &&& player != 0 ==> (who matches Some(who) && who.0 == player)
                        &&& nid == 0 ==> what is Err
                        &&& nid != 0 ==> (what matches Ok(what) && what.0 == nid)
                        &&& bytes@ == input@.subrange(offset, offset + len)
                    }
            })
        }),
{
    A::bounded();
    let bytes = input@;
    let size = A::size() as int;
    let count = wire::word_at(bytes, 4 + size);
    let start = wire::word_at(bytes, 8 + size);
    lemma_within(bytes, start, count);
    if let Some(all) = wire::inputs_at(bytes, start, count) {
        lemma_count(bytes, start, count);
        let read = got->Some_0->inputs@;
        assert forall|k: int| 0 <= k < count implies {
            let i = start + 24 * k;
            let offset = codec::le_value(bytes.subrange(i + 16, i + 20)) as int;
            let len = codec::le_value(bytes.subrange(i + 20, i + 24)) as int;
            let player = codec::le_value(bytes.subrange(i, i + 8));
            let nid = codec::le_value(bytes.subrange(i + 8, i + 16));
            let (who, (what, data)) = #[trigger] read[k];
            &&& player == 0 ==> who is None
            &&& player != 0 ==> (who matches Some(who) && who.0 == player)
            &&& nid == 0 ==> what is Err
            &&& nid != 0 ==> (what matches Ok(what) && what.0 == nid)
            &&& data@ == bytes.subrange(offset, offset + len)
        } by {
            let i = start + 24 * k;
            lemma_each_input(bytes, start, all, k);
            assert(wire::is_input(read[k], all[k]));
            reveal_with_fuel(codec::bytes_limit, 9);
            crate::layout::digits_are_bytes(bytes.subrange(i, i + 8));
            crate::layout::digits_are_bytes(bytes.subrange(i + 8, i + 16));
        }
    }
}

/// The `k`th input of those that start at `start`, and the bytes that it points to, lie within
/// `bytes`.
pub open spec fn input_lies_within(bytes: Seq<u8>, start: int, k: int) -> bool {
    let i = start + 24 * k;
    &&& i + 24 <= bytes.len()
    &&& codec::le_value(bytes.subrange(i + 16, i + 20)) + codec::le_value(
        bytes.subrange(i + 20, i + 24),
    ) <= bytes.len()
}

proof fn lemma_within(bytes: Seq<u8>, start: nat, count: nat)
    ensures
        wire::inputs_at(bytes, start, count) is Some <==> forall|k: int|
            0 <= k < count ==> #[trigger] input_lies_within(bytes, start as int, k),
    decreases count,
{
    if count > 0 {
        let last = (count - 1) as nat;
        lemma_within(bytes, start, last);
        assert(wire::input_at(bytes, start + wire::INPUT_PART * last) is Some
            <==> input_lies_within(bytes, start as int, last as int));
        if wire::inputs_at(bytes, start, count) is Some {
            assert forall|k: int| 0 <= k < count implies #[trigger] input_lies_within(
                bytes,
                start as int,
                k,
            ) by {
            }
        }
    }
}

/// What is read of bytes, whoever wrote them, as a message of a server: what opens a session or
/// answers a player stands behind the kind; an update is what its place tells, up to the end, with
/// the two counts. Bytes that are too few, or begin with no known kind, hold no message.
pub proof fn server_messages_lie_within<'a, H: Fixed>(
    input: &'a [u8],
    got: Option<ServerMessage<H, Option<PlayerId>, WorldUnpacked<'a>>>,
)
    requires
        call_ensures(wire::read_server_message::<H>, (input,), got),
    ensures
        input@.len() < 4 + H::size() ==> got is None,
        input@.len() >= 4 + H::size() ==> {
            let kind = codec::le_value(input@.subrange(0, 4));
            let first = codec::le_value(input@.subrange(4, 12));
            let offset = codec::le_value(input@.subrange(12, 16)) as int;
            &&& kind > 2 ==> got is None
            &&& kind == 0 ==> (got matches Some(ServerMessage::Connected(hello)) && hello == H::at(
                input@,
                4,
            ))
            &&& kind == 1 && first != 0 ==> (got matches Some(ServerMessage::PlayerJoined { info })
                && info is Some && info->Some_0.0 == first)
            &&& kind == 1 && first == 0 ==> (got matches Some(ServerMessage::PlayerJoined { info })
                && info is None)
            &&& kind == 2 && (input@.len() < 24 || offset > input@.len()) ==> got is None
            &&& kind == 2 && input@.len() >= 24 && offset <= input@.len() ==> (got matches Some(
                ServerMessage::Updates { server_step, updates },
            ) && {
                &&& server_step == first
                &&& updates.raw@ == input@.skip(offset)
                &&& updates.updated == codec::le_value(input@.subrange(16, 20))
                &&& updates.removed == codec::le_value(input@.subrange(20, 24))
            })
        },
{
    H::bounded();
    if input@.len() >= 4 + H::size() {
        reveal_with_fuel(codec::bytes_limit, 9);
        crate::layout::digits_are_bytes(input@.subrange(4, 12));
    }
}

} // verus!
