//! How updates of a world and inputs are laid out in messages.

use crate::server::replicas::WorldReplicaPack;
use vstd::prelude::*;

verus! {

/// `output` with `bytes` at its front.
pub open spec fn filled(output: Seq<u8>, bytes: Seq<u8>) -> Seq<u8> {
    bytes + output.skip(bytes.len() as int)
}

/// `message` with `bytes` at `offset`.
pub open spec fn written(message: Seq<u8>, offset: nat, bytes: Seq<u8>) -> Seq<u8> {
    message.take(offset as int) + filled(message.skip(offset as int), bytes)
}

/// The fixed part of an update of a world whose bytes start at `offset`.
pub open spec fn world_fields(offset: nat, updated: nat, removed: nat) -> Seq<u32> {
    seq![offset as u32, updated as u32, removed as u32]
}

/// The bytes in `message` of an update of a world with the fixed part `fields`, and what follows.
pub open spec fn world_bytes(fields: Seq<u32>, message: Seq<u8>) -> Seq<u8> {
    message.skip(fields[0] as int)
}

/// The fixed part of an input of `len` bytes that start at `offset`.
pub open spec fn input_fields(offset: nat, len: nat) -> Seq<u32> {
    seq![offset as u32, len as u32]
}

/// The bytes in `message` of an input with the fixed part `fields`.
pub open spec fn input_bytes(fields: Seq<u32>, message: Seq<u8>) -> Seq<u8> {
    message.subrange(fields[0] as int, fields[0] + fields[1])
}

/// Copies `bytes` to the front of `output`.
fn fill(output: &mut [u8], bytes: &Vec<u8>)
    requires
        bytes@.len() <= old(output)@.len(),
    ensures
        final(output)@ == filled(old(output)@, bytes@),
{
    let ghost start = output@;
    for i in 0..bytes.len()
        invariant
            output@.len() == start.len(),
            bytes@.len() <= start.len(),
            output@ == bytes@.take(i as int) + start.skip(i as int),
    {
        output[i] = bytes[i];
        assert(output@ =~= bytes@.take(i + 1) + start.skip(i + 1));
    }
    assert(bytes@.take(bytes@.len() as int) =~= bytes@);
}

/// Layout of an update of a world.
pub struct WorldSchema;

/// An update of a world, as it comes out of a message.
#[derive(Clone, Copy, Debug)]
pub struct WorldUnpacked<'a> {
    /// The updates and the removed ids, in bytes; more may follow them.
    pub raw: &'a [u8],
    /// How many entities are updated.
    pub updated: usize,
    /// How many entities are gone.
    pub removed: usize,
}

impl<'a> alkahest::SchemaUnpack<'a> for WorldSchema {
    type Unpacked = WorldUnpacked<'a>;
}

impl alkahest::Schema for WorldSchema {
    /// Where the bytes start, how many entities are updated, and how many are gone.
    type Packed = [u32; 3];

    fn align() -> (align: usize)
        ensures
            align == 4,
    {
        4
    }

    fn unpack<'a>(packed: [u32; 3], input: &'a [u8]) -> (unpacked: WorldUnpacked<'a>)
        requires
            packed[0] <= input@.len(),
        ensures
            unpacked.raw@ == world_bytes(packed@, input@),
            unpacked.updated == packed[1],
            unpacked.removed == packed[2],
    {
        let offset: usize = packed[0] as usize;
        let raw = vstd::slice::slice_subrange(input, offset, input.len());
        assert(raw@ =~= input@.skip(offset as int));
        WorldUnpacked { raw, updated: packed[1] as usize, removed: packed[2] as usize }
    }
}

impl alkahest::Pack<WorldSchema> for &WorldReplicaPack {
    fn pack(self, offset: usize, output: &mut [u8]) -> (packed: ([u32; 3], usize))
        requires
            offset <= u32::MAX,
            self.updated <= u32::MAX,
            self.removed@.len() <= u32::MAX,
            self.body@.len() <= old(output)@.len(),
        ensures
            packed.0@ == world_fields(offset as nat, self.updated as nat, self.removed@.len()),
            packed.1 == self.body@.len(),
            final(output)@ == filled(old(output)@, self.body@),
    {
        fill(output, &self.body);
        ([offset as u32, self.updated as u32, self.removed.len() as u32], self.body.len())
    }
}

/// Layout of one input.
pub struct InputSchema;

/// One input, as it is sent.
pub struct InputPack {
    /// The input's bytes.
    pub input: Vec<u8>,
}

impl<'a> alkahest::SchemaUnpack<'a> for InputSchema {
    type Unpacked = &'a [u8];
}

impl alkahest::Schema for InputSchema {
    /// Where the bytes start, and how many they are.
    type Packed = [u32; 2];

    fn align() -> (align: usize)
        ensures
            align == 4,
    {
        4
    }

    fn unpack<'a>(packed: [u32; 2], input: &'a [u8]) -> (unpacked: &'a [u8])
        requires
            packed[0] + packed[1] <= input@.len(),
        ensures
            unpacked@ == input_bytes(packed@, input@),
    {
        let offset: usize = packed[0] as usize;
        let len: usize = packed[1] as usize;
        let rest = vstd::slice::slice_subrange(input, offset, input.len());
        let unpacked = vstd::slice::slice_subrange(rest, 0, len);
        assert(unpacked@ =~= input@.subrange(offset as int, offset + len));
        unpacked
    }
}

impl alkahest::Pack<InputSchema> for &InputPack {
    fn pack(self, offset: usize, output: &mut [u8]) -> (packed: ([u32; 2], usize))
        requires
            offset <= u32::MAX,
            self.input@.len() <= u32::MAX,
            self.input@.len() <= old(output)@.len(),
        ensures
            packed.0@ == input_fields(offset as nat, self.input@.len()),
            packed.1 == self.input@.len(),
            final(output)@ == filled(old(output)@, self.input@),
    {
        fill(output, &self.input);
        ([offset as u32, self.input.len() as u32], self.input.len())
    }
}

/// An input that was written into a message comes out of it as it was, and the message changes
/// nowhere else.
pub proof fn input_round_trip(message: Seq<u8>, offset: nat, input: Seq<u8>)
    requires
        offset <= u32::MAX,
        input.len() <= u32::MAX,
        offset + input.len() <= message.len(),
    ensures
        written(message, offset, input).len() == message.len(),
        input_bytes(input_fields(offset, input.len()), written(message, offset, input)) == input,
        forall|i: int|
            0 <= i < offset || offset + input.len() <= i < message.len() ==> #[trigger] written(
                message,
                offset,
                input,
            )[i] == message[i],
{
    let after = written(message, offset, input);
    assert(after.subrange(offset as int, (offset + input.len()) as int) =~= input);
}

/// An update of a world that was written into a message comes out of it as it was, with its counts
/// and with what followed its place in the message; the message changes nowhere else.
pub proof fn world_round_trip(
    message: Seq<u8>,
    offset: nat,
    body: Seq<u8>,
    updated: nat,
    removed: nat,
)
    requires
        offset <= u32::MAX,
        updated <= u32::MAX,
        removed <= u32::MAX,
        offset + body.len() <= message.len(),
    ensures
        written(message, offset, body).len() == message.len(),
        world_bytes(world_fields(offset, updated, removed), written(message, offset, body)) == body
            + message.skip((offset + body.len()) as int),
        world_fields(offset, updated, removed)[1] == updated,
        world_fields(offset, updated, removed)[2] == removed,
        forall|i: int|
            0 <= i < offset || offset + body.len() <= i < message.len() ==> #[trigger] written(
                message,
                offset,
                body,
            )[i] == message[i],
{
    let after = written(message, offset, body);
    assert(after.skip(offset as int) =~= body + message.skip((offset + body.len()) as int));
}

} // verus!
