//! Packets in a stream of bytes.
//!
//! A packet travels as a header and the packet's bytes. The header is a magic value and the
//! number of the packet's bytes, four bytes each.

use crate::codec;
use vstd::prelude::*;

verus! {

/// Bytes in a header.
pub const HEADER: usize = 8;

/// Most bytes that a packet can have.
pub const MAX_PACKET: usize = 65528;

/// Most bytes that are kept before a packet is taken out of them.
pub const CAPACITY: usize = 129536;

/// The magic value that every header starts with.
pub open spec fn magic() -> Seq<u8> {
    seq![0x61u8, 0x73u8, 0x74u8, 0x72u8]
}

/// `packet` with its header.
pub open spec fn framed(packet: Seq<u8>) -> Seq<u8> {
    magic() + codec::le_bytes(packet.len(), 4) + packet
}

/// Whether a header stands at the front of `bytes`, as far as the magic value tells.
pub open spec fn at_header(bytes: Seq<u8>) -> bool {
    bytes.len() >= HEADER && bytes.take(4) == magic()
}

/// `bytes` from the first place on where a header stands or where too few bytes are left for one.
pub open spec fn resync(bytes: Seq<u8>) -> Seq<u8>
    decreases bytes.len(),
{
    if bytes.len() < HEADER || at_header(bytes) {
        bytes
    } else {
        resync(bytes.skip(1))
    }
}

/// The number of bytes that the header at the front of `bytes` announces.
pub open spec fn announced(bytes: Seq<u8>) -> nat {
    codec::le_value(bytes.subrange(4, 8))
}

/// The first packet in `bytes`, and the bytes behind it; `None` where it is not complete.
pub open spec fn first_packet(bytes: Seq<u8>) -> Option<(Seq<u8>, Seq<u8>)> {
    let front = resync(bytes);
    if front.len() >= HEADER && front.len() >= HEADER + announced(front) {
        let end = HEADER + announced(front);
        Some((front.subrange(HEADER as int, end as int), front.skip(end as int)))
    } else {
        None
    }
}

/// Frames a packet.
pub fn frame(packet: &[u8]) -> (bytes: Vec<u8>)
    requires
        packet@.len() <= MAX_PACKET,
    ensures
        bytes@ == framed(packet@),
{
    let len: usize = packet.len();
    let mut bytes: Vec<u8> = Vec::new();
    bytes.push(0x61);
    bytes.push(0x73);
    bytes.push(0x74);
    bytes.push(0x72);
    bytes.push((len % 256) as u8);
    bytes.push((len / 256 % 256) as u8);
    bytes.push(0);
    bytes.push(0);
    proof {
        reveal_with_fuel(codec::le_bytes, 5);
        assert(bytes@ =~= magic() + codec::le_bytes(len as nat, 4));
    }
    bytes.extend_from_slice(packet);
    bytes
}

/// What is left to do of a send.
#[derive(Clone, Copy, Debug, PartialEq, Eq, Structural)]
pub enum SendPoll {
    /// Every byte has been written.
    Done,
    /// More bytes are to be written once the stream takes them.
    Pending,
}

/// A packet on its way into a stream.
pub struct TcpSend {
    buf: Vec<u8>,
    written: usize,
}

impl TcpSend {
    /// The bytes that are still to be written.
    pub closed spec fn rest(self) -> Seq<u8> {
        self.buf@.skip(self.written as int)
    }

    /// No more has been written than there is.
    pub closed spec fn wf(self) -> bool {
        self.written <= self.buf@.len()
    }

    /// Starts to send a packet.
    pub fn new(packet: &[u8]) -> (send: Self)
        requires
            packet@.len() <= MAX_PACKET,
        ensures
            send.rest() == framed(packet@),
            send.wf(),
    {
        let buf = frame(packet);
        assert(buf@.skip(0) =~= buf@);
        TcpSend { buf, written: 0 }
    }

    /// The bytes that are still to be written.
    pub fn buf(&self) -> (rest: &[u8])
        requires
            self.wf(),
        ensures
            rest@ == self.rest(),
    {
        let rest = vstd::slice::slice_subrange(self.buf.as_slice(), self.written, self.buf.len());
        assert(rest@ =~= self.rest());
        rest
    }

    /// Notes that the stream took `written` of the bytes.
    pub fn poll(&mut self, written: usize) -> (poll: SendPoll)
        requires
            old(self).wf(),
            written <= old(self).rest().len(),
        ensures
            final(self).wf(),
            final(self).rest() == old(self).rest().skip(written as int),
            poll is Done <==> written == old(self).rest().len(),
    {
        let len: usize = self.buf.len();
        self.written = self.written + written;
        assert(self.rest() =~= old(self).rest().skip(written as int));
        if self.written == len {
            SendPoll::Done
        } else {
            SendPoll::Pending
        }
    }
}

/// The other side has closed the stream, or announced more than can be kept.
#[derive(Clone, Copy, Debug, PartialEq, Eq, Structural)]
pub struct ConnectionAborted;

/// Bytes that came out of a stream and of which no packet was made yet.
pub struct RecvBuf {
    buf: Vec<u8>,
}

impl View for RecvBuf {
    type V = Seq<u8>;

    closed spec fn view(&self) -> Seq<u8> {
        self.buf@
    }
}

impl RecvBuf {
    /// No more is kept than there is room for.
    pub open spec fn wf(self) -> bool {
        self@.len() <= CAPACITY
    }

    /// Nothing has come yet.
    pub fn new() -> (buf: Self)
        ensures
            buf@ == Seq::<u8>::empty(),
            buf.wf(),
    {
        RecvBuf { buf: Vec::new() }
    }

    /// How many bytes there is room for.
    pub fn spare(&self) -> (spare: usize)
        requires
            self.wf(),
        ensures
            spare == CAPACITY - self@.len(),
    {
        CAPACITY - self.buf.len()
    }

    /// Takes in what was read from the stream. Nothing read means that the stream has ended or
    /// that there is no room for what the packet still lacks.
    pub fn fill(&mut self, read: &[u8]) -> (result: Result<(), ConnectionAborted>)
        requires
            old(self).wf(),
            read@.len() <= CAPACITY - old(self)@.len(),
        ensures
            final(self).wf(),
            final(self)@ == old(self)@ + read@,
            result is Err <==> read@.len() == 0,
    {
        if read.len() == 0 {
            assert(self@ =~= self@ + read@);
            Err(ConnectionAborted)
        } else {
            self.buf.extend_from_slice(read);
            Ok(())
        }
    }

    /// Where the first header stands, and where its packet ends, if it is complete.
    fn scan(&self) -> (found: (usize, Option<usize>))
        requires
            self.wf(),
        ensures
            found.0 <= self@.len(),
            resync(self@) == self@.skip(found.0 as int),
            match found.1 {
                Some(end) => {
                    &&& found.0 + HEADER <= end <= self@.len()
                    &&& first_packet(self@) == Some(
                        (
                            self@.subrange(found.0 + HEADER, end as int),
                            self@.skip(end as int),
                        ),
                    )
                },
                None => first_packet(self@) is None,
            },
    {
        let ghost start = self.buf@;
        let len: usize = self.buf.len();
        let mut at: usize = 0;
        assert(start.skip(0) =~= start);
        while len - at >= HEADER && !(self.buf[at] == 0x61 && self.buf[at + 1] == 0x73
            && self.buf[at + 2] == 0x74 && self.buf[at + 3] == 0x72)
            invariant
                len == self.buf@.len(),
                self.buf@ == start,
                at <= len,
                resync(start) == resync(start.skip(at as int)),
            decreases len - at,
        {
            let ghost here = start.skip(at as int);
            assert(here.take(4) != magic()) by {
                assert(here.take(4)[0] == start[at as int]);
                assert(here.take(4)[1] == start[at + 1]);
                assert(here.take(4)[2] == start[at + 2]);
                assert(here.take(4)[3] == start[at + 3]);
            }
            assert(here.skip(1) =~= start.skip(at + 1));
            at = at + 1;
        }
        let ghost front = start.skip(at as int);
        proof {
            if front.len() >= HEADER {
                assert(front.take(4) =~= magic());
            }
            assert(resync(start) == front);
        }
        if len - at < HEADER {
            return (at, None);
        }
        let size: u64 = self.buf[at + 4] as u64 + 256 * (self.buf[at + 5] as u64) + 65536 * (
        self.buf[at + 6] as u64) + 16777216 * (self.buf[at + 7] as u64);
        proof {
            let s = front.subrange(4, 8);
            reveal_with_fuel(codec::le_value, 5);
            assert(s.skip(1).skip(1) =~= s.skip(2));
            assert(s.skip(2).skip(1) =~= s.skip(3));
            assert(s.skip(3).skip(1) =~= s.skip(4));
            assert(size == announced(front));
        }
        if ((len - at - HEADER) as u64) < size {
            return (at, None);
        }
        let end: usize = at + HEADER + size as usize;
        assert(self@.subrange(at + HEADER, end as int) =~= front.subrange(
            HEADER as int,
            HEADER + size,
        ));
        assert(start.skip(end as int) =~= front.skip(HEADER + size));
        (at, Some(end))
    }

    /// Whether the first packet is complete.
    pub fn is_ready(&self) -> (ready: bool)
        requires
            self.wf(),
        ensures
            ready <==> first_packet(self@) is Some,
    {
        self.scan().1.is_some()
    }

    /// Takes the first packet out, if it is complete. What stands before a header is dropped.
    pub fn recv(&mut self) -> (packet: Option<Vec<u8>>)
        requires
            old(self).wf(),
        ensures
            final(self).wf(),
            match first_packet(old(self)@) {
                Some((bytes, rest)) => {
                    &&& packet is Some
                    &&& packet->Some_0@ == bytes
                    &&& final(self)@ == rest
                },
                None => packet is None && final(self)@ == resync(old(self)@),
            },
    {
        let (at, end) = self.scan();
        match end {
            Some(end) => {
                let mut packet: Vec<u8> = Vec::new();
                packet.extend_from_slice(
                    vstd::slice::slice_subrange(self.buf.as_slice(), at + HEADER, end),
                );
                self.drop_front(end);
                Some(packet)
            },
            None => {
                self.drop_front(at);
                None
            },
        }
    }

    /// Drops the first `count` bytes.
    fn drop_front(&mut self, count: usize)
        requires
            count <= old(self)@.len(),
        ensures
            final(self)@ == old(self)@.skip(count as int),
    {
        let ghost start = self.buf@;
        let tail = self.buf.split_off(count);
        self.buf = tail;
        assert(self.buf@ =~= start.skip(count as int));
    }
}

/// The bytes of `packets`, framed, one after the other.
pub open spec fn stream(packets: Seq<Seq<u8>>) -> Seq<u8>
    decreases packets.len(),
{
    if packets.len() == 0 {
        Seq::empty()
    } else {
        framed(packets[0]) + stream(packets.skip(1))
    }
}

/// The packets that come out of `bytes`, in order.
pub open spec fn packets(bytes: Seq<u8>) -> Seq<Seq<u8>>
    decreases bytes.len(),
{
    match first_packet(bytes) {
        None => Seq::empty(),
        Some((packet, rest)) => {
            proof {
                resync_finds_header(bytes);
            }
            seq![packet] + packets(rest)
        },
    }
}

/// Where enough bytes are left for a header one stands at their front.
pub proof fn resync_finds_header(bytes: Seq<u8>)
    ensures
        resync(bytes).len() <= bytes.len(),
        resync(bytes).len() >= HEADER ==> at_header(resync(bytes)),
    decreases bytes.len(),
{
    if !(bytes.len() < HEADER || at_header(bytes)) {
        resync_finds_header(bytes.skip(1));
    }
}

/// What is framed comes out as it was, and what follows it stays.
pub proof fn frame_round_trip(packet: Seq<u8>, rest: Seq<u8>)
    requires
        packet.len() <= u32::MAX,
    ensures
        first_packet(framed(packet) + rest) == Some((packet, rest)),
{
    let bytes = framed(packet) + rest;
    codec::le_bytes_round_trip(packet.len(), 4);
    reveal_with_fuel(codec::bytes_limit, 5);
    assert(bytes.take(4) =~= magic());
    assert(bytes.subrange(4, 8) =~= codec::le_bytes(packet.len(), 4));
    assert(bytes.subrange(8, 8 + packet.len() as int) =~= packet);
    assert(bytes.skip(8 + packet.len() as int) =~= rest);
}

/// As long as a byte of a framed packet is missing nothing comes out and nothing is lost.
pub proof fn incomplete_frame_waits(packet: Seq<u8>, n: nat)
    requires
        packet.len() <= u32::MAX,
        n < framed(packet).len(),
    ensures
        first_packet(framed(packet).take(n as int)) is None,
        resync(framed(packet).take(n as int)) == framed(packet).take(n as int),
{
    let bytes = framed(packet).take(n as int);
    codec::le_bytes_round_trip(packet.len(), 4);
    reveal_with_fuel(codec::bytes_limit, 5);
    if n >= HEADER {
        assert(bytes.take(4) =~= magic());
        assert(bytes.subrange(4, 8) =~= codec::le_bytes(packet.len(), 4));
    }
}

/// Packets that are framed one after the other come out in the same order, and none is lost.
pub proof fn stream_round_trip(sent: Seq<Seq<u8>>)
    requires
        forall|i: int| 0 <= i < sent.len() ==> (#[trigger] sent[i]).len() <= u32::MAX,
    ensures
        packets(stream(sent)) == sent,
    decreases sent.len(),
{
    if sent.len() > 0 {
        let rest = sent.skip(1);
        stream_round_trip(rest);
        frame_round_trip(sent[0], stream(rest));
        assert(seq![sent[0]] + rest =~= sent);
    }
}

/// It does not matter where the stream was cut when it was read: what is left after a part without
/// a complete packet makes, with the next part, what both parts make together.
pub proof fn pieces_add_up(first: Seq<u8>, second: Seq<u8>)
    ensures
        first_packet(first) is None ==> {
            &&& resync(resync(first) + second) == resync(first + second)
            &&& first_packet(resync(first) + second) == first_packet(first + second)
        },
        first_packet(first) matches Some((packet, rest)) ==> first_packet(first + second) == Some(
            (packet, rest + second),
        ),
{
    lemma_resync_pieces(first, second);
    resync_finds_header(first);
    if first_packet(first) is Some {
        let front = resync(first);
        let whole = front + second;
        let end = (HEADER + announced(front)) as int;
        assert(whole.take(4) =~= front.take(4));
        assert(whole.subrange(4, 8) =~= front.subrange(4, 8));
        assert(whole.subrange(HEADER as int, end) =~= front.subrange(HEADER as int, end));
        assert(whole.skip(end) =~= front.skip(end) + second);
    }
}

proof fn lemma_resync_pieces(first: Seq<u8>, second: Seq<u8>)
    ensures
        resync(resync(first) + second) == resync(first + second),
    decreases first.len(),
{
    if !(first.len() < HEADER || at_header(first)) {
        lemma_resync_pieces(first.skip(1), second);
        assert((first + second).take(4) =~= first.take(4));
        assert((first + second).skip(1) =~= first.skip(1) + second);
    }
}

/// What stands in front of a packet is dropped, where no header seems to start in it.
pub proof fn noise_is_dropped(noise: Seq<u8>, packet: Seq<u8>, rest: Seq<u8>)
    requires
        packet.len() <= u32::MAX,
        forall|i: int|
            0 <= i < noise.len() ==> !at_header(
                #[trigger] (noise + framed(packet) + rest).skip(i),
            ),
    ensures
        first_packet(noise + framed(packet) + rest) == Some((packet, rest)),
    decreases noise.len(),
{
    let bytes = noise + framed(packet) + rest;
    frame_round_trip(packet, rest);
    if noise.len() == 0 {
        assert(bytes =~= framed(packet) + rest);
    } else {
        let less = noise.skip(1);
        assert(bytes.skip(1) =~= less + framed(packet) + rest);
        assert(bytes.skip(0) =~= bytes);
        assert forall|i: int| 0 <= i < less.len() implies !at_header(
            #[trigger] (less + framed(packet) + rest).skip(i),
        ) by {
            assert((less + framed(packet) + rest).skip(i) =~= bytes.skip(i + 1));
        }
        noise_is_dropped(less, packet, rest);
        assert(framed(packet).len() >= HEADER) by {
            codec::le_bytes_round_trip(packet.len(), 4);
        }
    }
}

} // verus!
