//! Integers on the wire: the variable-length form in which ids and masks travel.

use bincode::Options;
use std::io::Cursor;
use std::num::NonZeroU64;
use vstd::prelude::*;

verus! {

/// The `k` low bytes of `v`, least significant byte first.
pub open spec fn le_bytes(v: nat, k: nat) -> Seq<u8>
    decreases k,
{
    if k == 0 {
        Seq::empty()
    } else {
        seq![(v % 256) as u8] + le_bytes(v / 256, (k - 1) as nat)
    }
}

/// The number whose bytes, least significant first, are `s`.
pub open spec fn le_value(s: Seq<u8>) -> nat
    decreases s.len(),
{
    if s.len() == 0 {
        0
    } else {
        s[0] as nat + 256 * le_value(s.skip(1))
    }
}

/// `256` to the power of `k`.
pub open spec fn bytes_limit(k: nat) -> nat
    decreases k,
{
    if k == 0 {
        1
    } else {
        256 * bytes_limit((k - 1) as nat)
    }
}

/// Variable-length form of `v`: one byte below 251, else a marker byte and the shortest of a
/// two, four or eight byte little-endian integer that holds `v`.
pub open spec fn varint(v: u64) -> Seq<u8> {
    if v < 251 {
        seq![v as u8]
    } else if v <= u16::MAX {
        seq![251u8] + le_bytes(v as nat, 2)
    } else if v <= u32::MAX {
        seq![252u8] + le_bytes(v as nat, 4)
    } else {
        seq![253u8] + le_bytes(v as nat, 8)
    }
}

/// The integer that the front of `s` holds in variable-length form, and the number of bytes
/// that it takes; `None` where the front of `s` holds none.
pub open spec fn varint_read(s: Seq<u8>) -> Option<(u64, nat)> {
    if s.len() == 0 {
        None
    } else if s[0] < 251 {
        Some((s[0] as u64, 1))
    } else if s[0] == 251 && s.len() >= 3 {
        Some((le_value(s.subrange(1, 3)) as u64, 3))
    } else if s[0] == 252 && s.len() >= 5 {
        Some((le_value(s.subrange(1, 5)) as u64, 5))
    } else if s[0] == 253 && s.len() >= 9 {
        Some((le_value(s.subrange(1, 9)) as u64, 9))
    } else {
        None
    }
}

/// Like [`varint_read`], for a value that is not zero.
pub open spec fn id_read(s: Seq<u8>) -> Option<(u64, nat)> {
    match varint_read(s) {
        Some((v, n)) if v != 0 => Some((v, n)),
        _ => None,
    }
}

/// Like [`varint_read`], for a value that fits in 32 bits.
pub open spec fn mask_read(s: Seq<u8>) -> Option<(u32, nat)> {
    match varint_read(s) {
        Some((v, n)) if v <= u32::MAX => Some((v as u32, n)),
        _ => None,
    }
}

/// `bincode`'s description of what went wrong. Opaque here.
#[verifier::external_type_specification]
#[verifier::external_body]
pub struct ExErrorKind(bincode::ErrorKind);

/// Calls `bincode`'s `Options::serialize` on a `u64`, with the default options and trailing
/// bytes allowed. The contract claims that it succeeds and that its bytes are the
/// variable-length form that `bincode::config::VarintEncoding` documents, little-endian.
#[verifier::external_body]
fn serialize_u64(v: u64) -> (bytes: Result<Vec<u8>, Box<bincode::ErrorKind>>)
    ensures
        bytes is Ok,
        bytes->Ok_0@ == varint(v),
{
    bincode::DefaultOptions::new().allow_trailing_bytes().serialize(&v)
}

/// Calls `bincode`'s `Options::deserialize_from` for a `NonZeroU64` on a cursor at the start of
/// `input`. The contract claims that it succeeds exactly where the front of `input` holds a
/// non-zero integer in variable-length form, and then gives that integer and the number of
/// bytes read.
#[verifier::external_body]
fn deserialize_nonzero_u64(input: &[u8]) -> (value: Result<(u64, usize), Box<bincode::ErrorKind>>)
    ensures
        value is Ok <==> id_read(input@) is Some,
        value is Ok ==> (value->Ok_0.0, value->Ok_0.1 as nat) == id_read(input@)->Some_0,
{
    let mut cursor = Cursor::new(input);
    let value: NonZeroU64 =
        bincode::DefaultOptions::new().allow_trailing_bytes().deserialize_from(&mut cursor)?;
    Ok((value.get(), cursor.position() as usize))
}

/// Calls `bincode`'s `Options::deserialize_from` for a `u32` on a cursor at the start of
/// `input`. The contract claims that it succeeds exactly where the front of `input` holds an
/// integer below 2^32 in variable-length form, and then gives that integer and the number of
/// bytes read.
#[verifier::external_body]
fn deserialize_u32(input: &[u8]) -> (value: Result<(u32, usize), Box<bincode::ErrorKind>>)
    ensures
        value is Ok <==> mask_read(input@) is Some,
        value is Ok ==> (value->Ok_0.0, value->Ok_0.1 as nat) == mask_read(input@)->Some_0,
{
    let mut cursor = Cursor::new(input);
    let value: u32 =
        bincode::DefaultOptions::new().allow_trailing_bytes().deserialize_from(&mut cursor)?;
    Ok((value, cursor.position() as usize))
}

/// The bytes of `v` in variable-length form.
pub fn encode(v: u64) -> (bytes: Vec<u8>)
    ensures
        bytes@ == varint(v),
{
    match serialize_u64(v) {
        Ok(bytes) => bytes,
        Err(_) => Vec::new(),
    }
}

/// Appends the variable-length form of `v` to `out`.
pub fn append(out: &mut Vec<u8>, v: u64)
    ensures
        final(out)@ == old(out)@ + varint(v),
{
    let mut bytes = encode(v);
    out.append(&mut bytes);
}

/// Reads a non-zero integer at `pos`; gives it and the position behind it.
pub fn decode_id(input: &[u8], pos: usize) -> (value: Option<(u64, usize)>)
    requires
        pos <= input@.len(),
    ensures
        value is Some <==> id_read(input@.skip(pos as int)) is Some,
        value matches Some((v, end)) ==> {
            &&& Some((v, (end - pos) as nat)) == id_read(input@.skip(pos as int))
            &&& pos < end <= input@.len()
        },
{
    let rest = vstd::slice::slice_subrange(input, pos, input.len());
    assert(rest@ == input@.skip(pos as int));
    match deserialize_nonzero_u64(rest) {
        Ok((v, n)) => Some((v, pos + n)),
        Err(_) => None,
    }
}

/// Reads an integer of at most 32 bits at `pos`; gives it and the position behind it.
pub fn decode_mask(input: &[u8], pos: usize) -> (value: Option<(u32, usize)>)
    requires
        pos <= input@.len(),
    ensures
        value is Some <==> mask_read(input@.skip(pos as int)) is Some,
        value matches Some((v, end)) ==> {
            &&& Some((v, (end - pos) as nat)) == mask_read(input@.skip(pos as int))
            &&& pos < end <= input@.len()
        },
{
    let rest = vstd::slice::slice_subrange(input, pos, input.len());
    assert(rest@ == input@.skip(pos as int));
    match deserialize_u32(rest) {
        Ok((v, n)) => Some((v, pos + n)),
        Err(_) => None,
    }
}

/// The bytes of a number that fits in them give the number back.
pub proof fn le_bytes_round_trip(v: nat, k: nat)
    ensures
        le_bytes(v, k).len() == k,
        v < bytes_limit(k) ==> le_value(le_bytes(v, k)) == v,
    decreases k,
{
    if k > 0 {
        let tail = le_bytes(v / 256, (k - 1) as nat);
        le_bytes_round_trip(v / 256, (k - 1) as nat);
        assert(le_bytes(v, k).skip(1) =~= tail);
    }
}

/// What is written in variable-length form is read back, whatever bytes follow it.
pub proof fn varint_round_trip(v: u64, rest: Seq<u8>)
    ensures
        varint_read(varint(v) + rest) == Some((v, varint(v).len())),
        1 <= varint(v).len() <= 9,
{
    let s = varint(v) + rest;
    reveal_with_fuel(bytes_limit, 9);
    if v < 251 {
    } else if v <= u16::MAX {
        le_bytes_round_trip(v as nat, 2);
        assert(s.subrange(1, 3) =~= le_bytes(v as nat, 2));
    } else if v <= u32::MAX {
        le_bytes_round_trip(v as nat, 4);
        assert(s.subrange(1, 5) =~= le_bytes(v as nat, 4));
    } else {
        le_bytes_round_trip(v as nat, 8);
        assert(s.subrange(1, 9) =~= le_bytes(v as nat, 8));
    }
}

/// No more bytes are read than there are, and at least one.
pub proof fn reads_lie_within(s: Seq<u8>)
    ensures
        varint_read(s) matches Some((_, n)) ==> 1 <= n <= s.len(),
        id_read(s) matches Some((_, n)) ==> 1 <= n <= s.len(),
        mask_read(s) matches Some((_, n)) ==> 1 <= n <= s.len(),
{
}

} // verus!
