//! Which bytes stand where: the laws of numbers, masks, packets and messages, stated of what the
//! functions are given and give.

use crate::channel::tcp::{self, RecvBuf, SendPoll, TcpSend};
use crate::client::{BadMessage, TrackReplicate};
use crate::codec;
use crate::mask;
use crate::schema;
use crate::server;
use vstd::arithmetic::power::pow;
use vstd::prelude::*;

verus! {

/// Each byte of a number is its digit to the base 256, the lowest first.
pub proof fn bytes_are_digits(v: nat, k: nat, i: int)
    requires
        0 <= i < k,
    ensures
        codec::le_bytes(v, k).len() == k,
        codec::le_bytes(v, k)[i] == (v as int / pow(256, i as nat)) % 256,
    decreases k,
{
    codec::le_bytes_round_trip(v, k);
    if i == 0 {
        vstd::arithmetic::power::lemma_pow0(256);
        assert(v as int / 1 == v as int);
    } else {
        bytes_are_digits(v / 256, (k - 1) as nat, i - 1);
        vstd::arithmetic::power::lemma_pow_adds(256, 1, (i - 1) as nat);
        vstd::arithmetic::power::lemma_pow1(256);
        vstd::arithmetic::power::lemma_pow_positive(256, (i - 1) as nat);
        vstd::arithmetic::div_mod::lemma_div_denominator(v as int, 256, pow(256, (i - 1) as nat));
        assert(pow(256, i as nat) == 256 * pow(256, (i - 1) as nat));
    }
}

/// The number that bytes hold has those bytes.
pub proof fn digits_are_bytes(s: Seq<u8>)
    ensures
        codec::le_bytes(codec::le_value(s), s.len()) == s,
        codec::le_value(s) < codec::bytes_limit(s.len()),
    decreases s.len(),
{
    if s.len() > 0 {
        let rest = s.skip(1);
        digits_are_bytes(rest);
        let v = codec::le_value(s) as int;
        let r = codec::le_value(rest) as int;
        assert(v == s[0] as int + 256 * r);
        vstd::arithmetic::div_mod::lemma_fundamental_div_mod_converse(v, 256, r, s[0] as int);
        assert(v % 256 == s[0] as int && v / 256 == r);
        assert(codec::le_bytes(codec::le_value(s), s.len()) =~= seq![s[0]] + rest);
        assert(seq![s[0]] + rest =~= s);
    } else {
        assert(codec::le_bytes(codec::le_value(s), 0) =~= s);
    }
}

/// A number is encoded in one byte below 251, and else in a byte that tells the size and the
/// smallest of two, four and eight bytes that hold it, the lowest first.
pub proof fn numbers_are_short(v: u64, bytes: Vec<u8>)
    requires
        call_ensures(codec::encode, (v,), bytes),
    ensures
        v < 251 ==> bytes@ == seq![v as u8],
        251 <= v <= 0xFFFF ==> {
            &&& bytes@.len() == 3
            &&& bytes@[0] == 251
            &&& bytes@[1] + 256 * bytes@[2] == v
        },
        0xFFFF < v <= 0xFFFF_FFFF ==> {
            &&& bytes@.len() == 5
            &&& bytes@[0] == 252
            &&& bytes@[1] + 256 * bytes@[2] + 65536 * bytes@[3] + 16777216 * bytes@[4] == v
        },
        0xFFFF_FFFF < v ==> {
            &&& bytes@.len() == 9
            &&& bytes@[0] == 253
            &&& codec::le_value(bytes@.skip(1)) == v
        },
{
    reveal_with_fuel(codec::le_bytes, 5);
    reveal_with_fuel(codec::bytes_limit, 9);
    if v > 0xFFFF_FFFF {
        codec::le_bytes_round_trip(v as nat, 8);
        assert(bytes@.skip(1) =~= codec::le_bytes(v as nat, 8));
    } else if v > 0xFFFF {
        let n = v as nat;
        codec::le_bytes_round_trip(n, 4);
        assert(bytes@ =~= seq![252u8] + codec::le_bytes(n, 4));
        assert(n / 256 / 256 == n / 65536);
        assert(n / 65536 / 256 == n / 16777216);
    } else if v >= 251 {
        codec::le_bytes_round_trip(v as nat, 2);
        assert(bytes@ =~= seq![251u8] + codec::le_bytes(v as nat, 2));
    }
}

/// What is appended follows what was there, and is read back as an id if it is not zero, and as a
/// mask if it has no more than 32 bits, wherever it stands and whatever follows.
pub proof fn numbers_are_read_back(
    out: &mut Vec<u8>,
    v: u64,
    input: &[u8],
    rest: Seq<u8>,
    id: Option<(u64, usize)>,
    mask: Option<(u32, usize)>,
)
    requires
        call_ensures(codec::append, (out, v), ()),
        input@ == final(out)@ + rest,
        old(out)@.len() <= usize::MAX,
        call_ensures(codec::decode_id, (input, old(out)@.len() as usize), id),
        call_ensures(codec::decode_mask, (input, old(out)@.len() as usize), mask),
    ensures
        final(out)@.take(old(out)@.len() as int) == old(out)@,
        old(out)@.len() < final(out)@.len(),
        v != 0 ==> id == Some((v, final(out)@.len() as usize)),
        v == 0 ==> id is None,
        v <= u32::MAX ==> mask == Some((v as u32, final(out)@.len() as usize)),
        v > u32::MAX ==> mask is None,
{
    let n = old(out)@.len() as int;
    codec::varint_round_trip(v, rest);
    assert(final(out)@.take(n) =~= old(out)@);
    assert(input@.skip(n) =~= codec::varint(v) + rest);
}

/// Which number the front of bytes holds is told by the first of them: itself below 251; from 251
/// to 253 the two, four or eight bytes behind it, where there are as many; no number otherwise.
pub proof fn the_first_byte_tells(input: &[u8], pos: usize, id: Option<(u64, usize)>)
    requires
        pos <= input@.len(),
        call_ensures(codec::decode_id, (input, pos), id),
    ensures
        pos == input@.len() ==> id is None,
        pos < input@.len() ==> {
            let first = input@[pos as int];
            let left = input@.len() - pos;
            &&& first == 0 ==> id is None
            &&& 0 < first < 251 ==> id == Some((first as u64, (pos + 1) as usize))
            &&& first == 251 && left < 3 ==> id is None
            &&& first == 252 && left < 5 ==> id is None
            &&& first == 253 && left < 9 ==> id is None
            &&& first > 253 ==> id is None
            &&& first == 251 && left >= 3 ==> {
                let v = input@[pos + 1] + 256 * input@[pos + 2];
                &&& v == 0 ==> id is None
                &&& v != 0 ==> (id matches Some((got, end)) && got == v && end == pos + 3)
            }
            &&& first == 252 && left >= 5 ==> {
                let v = codec::le_value(input@.subrange(pos + 1, pos + 5));
                &&& v == 0 ==> id is None
                &&& v != 0 ==> (id matches Some((got, end)) && got == v && end == pos + 5)
            }
            &&& first == 253 && left >= 9 ==> {
                let v = codec::le_value(input@.subrange(pos + 1, pos + 9));
                &&& v == 0 ==> id is None
                &&& v != 0 ==> (id matches Some((got, end)) && got == v && end == pos + 9)
            }
        },
{
    let s = input@.skip(pos as int);
    reveal_with_fuel(codec::bytes_limit, 9);
    if pos < input@.len() {
        if s.len() >= 3 {
            reveal_with_fuel(codec::le_value, 3);
            assert(s.subrange(1, 3).skip(1).skip(1) =~= Seq::empty());
            assert(codec::le_value(s.subrange(1, 3)) == s[1] as nat + 256 * (s[2] as nat));
        }
        if s.len() >= 5 {
            assert(s.subrange(1, 5) =~= input@.subrange(pos + 1, pos + 5));
            digits_are_bytes(s.subrange(1, 5));
        }
        if s.len() >= 9 {
            assert(s.subrange(1, 9) =~= input@.subrange(pos + 1, pos + 9));
            digits_are_bytes(s.subrange(1, 9));
        }
    }
}

/// A mask has two bits for each descriptor: the lower is set where anything changed, the higher
/// where new state follows. All bits beyond are clear.
pub proof fn masks_have_two_bits_each(tracks: Seq<TrackReplicate>, i: nat)
    requires
        tracks.len() <= 16,
        i < 16,
    ensures
        i < tracks.len() ==> {
            &&& (mask::mask_of(tracks) >> ((2 * i) as u32)) & 1 == 1 <==> !(
            tracks[i as int] is Unmodified)
            &&& (mask::mask_of(tracks) >> ((2 * i + 1) as u32)) & 1 == 1
                <==> tracks[i as int] is Modified
        },
        i >= tracks.len() ==> {
            &&& (mask::mask_of(tracks) >> ((2 * i) as u32)) & 1 == 0
            &&& (mask::mask_of(tracks) >> ((2 * i + 1) as u32)) & 1 == 0
        },
{
    mask::mask_tells_tracks(tracks, i);
    let m = mask::mask_of(tracks);
    lemma_bit(m, 2 * i);
    lemma_bit(m, 2 * i + 1);
}

proof fn lemma_bit(m: u32, i: nat)
    requires
        i < 32,
    ensures
        mask::bit(m, i) <==> (m >> (i as u32)) & 1 == 1,
        !mask::bit(m, i) <==> (m >> (i as u32)) & 1 == 0,
{
    let b = i as u32;
    assert(m & (1u32 << b) != 0 <==> (m >> b) & 1 == 1) by (bit_vector)
        requires
            b < 32,
    ;
    assert((m >> b) & 1 == 1 || (m >> b) & 1 == 0) by (bit_vector)
        requires
            b < 32,
    ;
}

/// What a mask says of a slot is what its two bits say; the higher without the lower is an error.
pub proof fn slots_are_read_from_two_bits(
    idx: usize,
    m: u32,
    track: Result<TrackReplicate, BadMessage>,
)
    requires
        idx < 16,
        call_ensures(TrackReplicate::from_mask, (idx, &m), track),
    ensures
        ({
            let low = (m >> ((2 * idx) as u32)) & 1 == 1;
            let high = (m >> ((2 * idx + 1) as u32)) & 1 == 1;
            &&& !low && !high ==> track == Ok::<TrackReplicate, BadMessage>(
                TrackReplicate::Unmodified,
            )
            &&& low && high ==> track == Ok::<TrackReplicate, BadMessage>(TrackReplicate::Modified)
            &&& low && !high ==> track == Ok::<TrackReplicate, BadMessage>(TrackReplicate::Removed)
            &&& !low && high ==> track == Err::<TrackReplicate, BadMessage>(BadMessage::InvalidMask)
        }),
{
    lemma_bit(m, (2 * idx) as nat);
    lemma_bit(m, (2 * idx + 1) as nat);
}

/// To note a change in a slot sets the bits of that slot that tell it, and no others.
pub proof fn slots_are_noted_in_two_bits<T>(
    track: server::TrackReplicate<T>,
    idx: usize,
    m: &mut u32,
    i: nat,
)
    requires
        idx < 16,
        i < 32,
        call_ensures(server::TrackReplicate::<T>::write_mask, (&track, idx, m), ()),
    ensures
        (*final(m) >> (i as u32)) & 1 == 1 <==> {
            ||| (*old(m) >> (i as u32)) & 1 == 1
            ||| i == 2 * idx && !(track is Unmodified)
            ||| i == 2 * idx + 1 && track is Modified
        },
{
    let a = (2 * idx) as nat;
    let once = mask::with_bit(*old(m), a);
    lemma_bit(*old(m), i);
    lemma_bit(*final(m), i);
    mask::with_bit_sets_one(*old(m), a, i);
    mask::with_bit_sets_one(once, a + 1, i);
}

/// A packet travels behind eight bytes: four that are always the same, and its size, the lowest
/// byte first.
pub proof fn packets_have_headers(packet: &[u8], bytes: Vec<u8>, send: TcpSend)
    requires
        packet@.len() <= tcp::MAX_PACKET,
        call_ensures(tcp::frame, (packet,), bytes),
        call_ensures(TcpSend::new, (packet,), send),
    ensures
        bytes@.len() == 8 + packet@.len(),
        bytes@[0] == 0x61 && bytes@[1] == 0x73 && bytes@[2] == 0x74 && bytes@[3] == 0x72,
        bytes@[4] + 256 * bytes@[5] + 65536 * bytes@[6] + 16777216 * bytes@[7] == packet@.len(),
        bytes@.skip(8) == packet@,
        send.rest() == bytes@,
{
    let n = packet@.len();
    codec::le_bytes_round_trip(n, 4);
    reveal_with_fuel(codec::le_bytes, 5);
    assert(n / 256 / 256 == n / 65536);
    assert(n / 65536 / 256 == n / 16777216);
    assert(bytes@.skip(8) =~= packet@);
}

/// What a stream took of a packet is not written again, and the rest still is. The packet is sent
/// exactly when no byte is left.
pub proof fn packets_are_written_to_the_end(send: &mut TcpSend, written: usize, poll: SendPoll)
    requires
        written <= old(send).rest().len(),
        call_ensures(TcpSend::poll, (send, written), poll),
    ensures
        final(send).rest().len() == old(send).rest().len() - written,
        forall|i: int|
            0 <= i < final(send).rest().len()
                ==> #[trigger] final(send).rest()[i] == old(send).rest()[i + written],
        poll is Done <==> final(send).rest().len() == 0,
{
}

/// What one side frames the other receives, as it was, once all of it is there, and nothing behind
/// it is touched. Before that nothing comes and nothing is lost.
pub proof fn packets_arrive(
    packet: &[u8],
    bytes: Vec<u8>,
    rest: Seq<u8>,
    whole: &mut RecvBuf,
    got: Option<Vec<u8>>,
    part: &mut RecvBuf,
    none: Option<Vec<u8>>,
    ready: bool,
)
    requires
        packet@.len() <= tcp::MAX_PACKET,
        call_ensures(tcp::frame, (packet,), bytes),
        old(whole)@ == bytes@ + rest,
        call_ensures(RecvBuf::recv, (whole,), got),
        call_ensures(RecvBuf::is_ready, (&*old(whole),), ready),
        old(part)@.len() < bytes@.len(),
        old(part)@ == bytes@.take(old(part)@.len() as int),
        call_ensures(RecvBuf::recv, (part,), none),
    ensures
        got is Some,
        got->Some_0@ == packet@,
        final(whole)@ == rest,
        ready,
        none is None,
        final(part)@ == old(part)@,
{
    tcp::frame_round_trip(packet@, rest);
    tcp::incomplete_frame_waits(packet@, old(part)@.len());
}

/// What was read from the stream is kept behind what is there already, as long as anything was
/// read.
pub proof fn reads_are_kept(
    buf: &mut RecvBuf,
    read: &[u8],
    result: Result<(), tcp::ConnectionAborted>,
)
    requires
        call_ensures(RecvBuf::fill, (buf, read), result),
    ensures
        final(buf)@ == old(buf)@ + read@,
        result is Err <==> read@.len() == 0,
{
}

/// Of an update of the world a message holds where its bytes start and its two counts; of an input,
/// where its bytes start and how many they are.
pub proof fn fields_tell_places(
    offset: nat,
    a: nat,
    b: nat,
    fields: Seq<u32>,
    message: Seq<u8>,
)
    requires
        offset <= u32::MAX,
        a <= u32::MAX,
        b <= u32::MAX,
        fields.len() >= 2,
    ensures
        schema::world_fields(offset, a, b).len() == 3,
        schema::world_fields(offset, a, b)[0] == offset,
        schema::world_fields(offset, a, b)[1] == a,
        schema::world_fields(offset, a, b)[2] == b,
        schema::input_fields(offset, a).len() == 2,
        schema::input_fields(offset, a)[0] == offset,
        schema::input_fields(offset, a)[1] == a,
        fields[0] <= message.len() ==> {
            let bytes = schema::world_bytes(fields, message);
            &&& bytes.len() == message.len() - fields[0]
            &&& forall|i: int|
                0 <= i < bytes.len() ==> #[trigger] bytes[i] == message[fields[0] + i]
        },
        fields[0] + fields[1] <= message.len() ==> {
            let bytes = schema::input_bytes(fields, message);
            &&& bytes.len() == fields[1]
            &&& forall|i: int|
                0 <= i < bytes.len() ==> #[trigger] bytes[i] == message[fields[0] + i]
        },
{
}

/// Nothing has come at first. As many bytes can still come as there is room for.
pub proof fn buffers_have_room(empty: RecvBuf, buf: RecvBuf, spare: usize)
    requires
        call_ensures(RecvBuf::new, (), empty),
        call_ensures(RecvBuf::spare, (&buf,), spare),
    ensures
        empty@.len() == 0,
        spare == 129536 - buf@.len(),
{
}

/// What is still to be written is what a stream is offered.
pub proof fn the_rest_is_offered(send: TcpSend, rest: &[u8])
    requires
        call_ensures(TcpSend::buf, (&send,), rest),
    ensures
        rest@ == send.rest(),
{
}

/// Whether a header begins at `i`: eight bytes are left, and the first four are those that every
/// header begins with.
pub open spec fn header_at(bytes: Seq<u8>, i: int) -> bool {
    &&& 0 <= i
    &&& i + 8 <= bytes.len()
    &&& bytes[i] == 0x61
    &&& bytes[i + 1] == 0x73
    &&& bytes[i + 2] == 0x74
    &&& bytes[i + 3] == 0x72
}

/// `n` is the first place in `bytes` where a header begins, or where too few bytes are left for
/// one.
pub open spec fn starts_at(bytes: Seq<u8>, n: int) -> bool {
    &&& 0 <= n <= bytes.len()
    &&& header_at(bytes, n) || bytes.len() - n < 8
    &&& forall|i: int| 0 <= i < n ==> !#[trigger] header_at(bytes, i) && i + 8 <= bytes.len()
}

proof fn lemma_starts(bytes: Seq<u8>) -> (n: int)
    ensures
        starts_at(bytes, n),
        tcp::resync(bytes) == bytes.skip(n),
    decreases bytes.len(),
{
    let first = bytes.take(4);
    if bytes.len() < 8 {
        assert(bytes.skip(0) =~= bytes);
        0
    } else if header_at(bytes, 0) {
        assert(first =~= tcp::magic());
        assert(bytes.skip(0) =~= bytes);
        0
    } else {
        if first == tcp::magic() {
            assert(first[0] == bytes[0] && first[1] == bytes[1] && first[2] == bytes[2]
                && first[3] == bytes[3]);
            assert(header_at(bytes, 0));
        }
        let rest = bytes.skip(1);
        let n = lemma_starts(rest);
        assert(bytes.skip(n + 1) =~= rest.skip(n));
        assert forall|i: int| 0 <= i < n + 1 implies !#[trigger] header_at(bytes, i) && i + 8
            <= bytes.len() by {
            if i > 0 {
                assert(!header_at(rest, i - 1));
            }
        }
        assert(header_at(rest, n) ==> header_at(bytes, n + 1));
        n + 1
    }
}

/// Whatever bytes came: those before the first header are dropped. If all bytes are there that the
/// header tells, they are the packet, and those behind it stay. Otherwise nothing comes, and the
/// header and all behind it stay.
pub proof fn the_first_packet_comes_out(buf: &mut RecvBuf, packet: Option<Vec<u8>>)
    requires
        call_ensures(RecvBuf::recv, (buf,), packet),
    ensures
        exists|n: int| #[trigger]
            starts_at(old(buf)@, n) && ({
                let size = codec::le_value(old(buf)@.subrange(n + 4, n + 8)) as int;
                let complete = header_at(old(buf)@, n) && n + 8 + size <= old(buf)@.len();
                &&& packet is Some <==> complete
                &&& complete ==> packet->Some_0@ == old(buf)@.subrange(n + 8, n + 8 + size) && final(buf)@ == old(buf)@.skip(n + 8 + size)
                &&& !complete ==> final(buf)@ == old(buf)@.skip(n)
            }),
{
    let bytes = old(buf)@;
    let n = lemma_starts(bytes);
    let front = bytes.skip(n);
    assert(starts_at(bytes, n));
    if front.len() >= 8 {
        assert(front.subrange(4, 8) =~= bytes.subrange(n + 4, n + 8));
        let size = tcp::announced(front) as int;
        if front.len() >= 8 + size {
            assert(front.subrange(8, 8 + size) =~= bytes.subrange(n + 8, n + 8 + size));
            assert(front.skip(8 + size) =~= bytes.skip(n + 8 + size));
        }
    }
}

/// A mask is read like an id, but that it may be zero and has no more than 32 bits.
pub proof fn masks_are_read_like_ids(
    input: &[u8],
    pos: usize,
    id: Option<(u64, usize)>,
    mask: Option<(u32, usize)>,
)
    requires
        pos <= input@.len(),
        call_ensures(codec::decode_id, (input, pos), id),
        call_ensures(codec::decode_mask, (input, pos), mask),
    ensures
        id matches Some((v, end)) ==> if v <= 0xFFFF_FFFF {
            mask matches Some((m, to)) && m == v && to == end
        } else {
            mask is None
        },
        mask matches Some((m, end)) ==> if m != 0 {
            id matches Some((v, to)) && v == m && to == end
        } else {
            id is None
        },
        pos < input@.len() && input@[pos as int] == 0 ==> mask == Some((0u32, (pos + 1) as usize)),
{
}

} // verus!
