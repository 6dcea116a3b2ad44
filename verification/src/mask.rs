//! The mask in front of each replicated entity: two bits for each descriptor.
//!
//! The lower bit of a pair says that the state has changed, the higher that new state follows.

use crate::client::{BadMessage, TrackReplicate};
use bitsetium::{BitEmpty, BitSet, BitTest, BitTestNone};
use vstd::prelude::*;

verus! {

/// Number of descriptors that a mask has room for.
pub const MASK_SLOTS: usize = 16;

/// Whether bit `i` of `mask` is set.
pub open spec fn bit(mask: u32, i: nat) -> bool {
    i < 32 && mask & (1u32 << (i as u32)) != 0
}

/// `mask` with bit `i` set.
pub open spec fn with_bit(mask: u32, i: nat) -> u32 {
    mask | (1u32 << (i as u32))
}

/// `mask` with the change `track` noted for slot `i`.
pub open spec fn mark(mask: u32, i: nat, track: TrackReplicate) -> u32 {
    match track {
        TrackReplicate::Unmodified => mask,
        TrackReplicate::Modified => with_bit(with_bit(mask, 2 * i), 2 * i + 1),
        TrackReplicate::Removed => with_bit(mask, 2 * i),
    }
}

/// The mask of an entity whose slots changed as `tracks` says.
pub open spec fn mask_of(tracks: Seq<TrackReplicate>) -> u32
    decreases tracks.len(),
{
    if tracks.len() == 0 {
        0
    } else {
        mark(mask_of(tracks.drop_last()), (tracks.len() - 1) as nat, tracks.last())
    }
}

/// What `mask` says of slot `i`.
pub open spec fn track_at(mask: u32, i: nat) -> Result<TrackReplicate, BadMessage> {
    match (bit(mask, 2 * i), bit(mask, 2 * i + 1)) {
        (false, false) => Ok(TrackReplicate::Unmodified),
        (true, true) => Ok(TrackReplicate::Modified),
        (true, false) => Ok(TrackReplicate::Removed),
        (false, true) => Err(BadMessage::InvalidMask),
    }
}

/// Calls `bitsetium`'s `BitEmpty::empty` for `u32`. The contract claims that it is zero.
#[verifier::external_body]
pub(crate) fn empty() -> (mask: u32)
    ensures
        mask == 0,
{
    <u32 as BitEmpty>::empty()
}

/// Calls `bitsetium`'s `BitSet::set` on a `u32`, which panics beyond bit 31. The contract
/// claims that it sets bit `i` and no other.
#[verifier::external_body]
pub(crate) fn set(mask: &mut u32, i: usize)
    requires
        i < 32,
    ensures
        *final(mask) == with_bit(*old(mask), i as nat),
{
    BitSet::set(mask, i)
}

/// Calls `bitsetium`'s `BitTest::test` on a `u32`. The contract claims that it tells whether
/// bit `i` is set, and says no beyond bit 31.
#[verifier::external_body]
pub(crate) fn test(mask: &u32, i: usize) -> (set: bool)
    ensures
        set == bit(*mask, i as nat),
{
    BitTest::test(mask, i)
}

/// Calls `bitsetium`'s `BitTestNone::test_none` on a `u32`. The contract claims that it tells
/// whether no bit is set.
#[verifier::external_body]
pub(crate) fn test_none(mask: &u32) -> (none: bool)
    ensures
        none == (*mask == 0),
{
    BitTestNone::test_none(mask)
}

/// Setting bit `i` sets that bit and leaves every other as it was.
pub proof fn with_bit_sets_one(mask: u32, i: nat, j: nat)
    requires
        i < 32,
    ensures
        bit(with_bit(mask, i), j) == (i == j || bit(mask, j)),
        with_bit(mask, i) != 0,
{
    let a = i as u32;
    assert(mask | (1u32 << a) != 0) by (bit_vector)
        requires
            a < 32,
    ;
    if j < 32 {
        let b = j as u32;
        assert((mask | (1u32 << a)) & (1u32 << b) != 0 <==> (a == b || mask & (1u32 << b) != 0))
            by (bit_vector)
            requires
                a < 32,
                b < 32,
        ;
    }
}

/// The mask of a row of changes says of each slot what changed there, and of every slot beyond
/// them that nothing did.
pub proof fn mask_tells_tracks(tracks: Seq<TrackReplicate>, i: nat)
    requires
        tracks.len() <= MASK_SLOTS,
    ensures
        i < tracks.len() ==> track_at(mask_of(tracks), i) == Ok::<_, BadMessage>(tracks[i as int]),
        i >= tracks.len() ==> track_at(mask_of(tracks), i) == Ok::<_, BadMessage>(
            TrackReplicate::Unmodified,
        ),
    decreases tracks.len(),
{
    if tracks.len() == 0 {
        assert forall|j: nat| !bit(0, j) by {
            let b = j as u32;
            assert(0u32 & (1u32 << b) == 0) by (bit_vector);
        }
    } else {
        let before = mask_of(tracks.drop_last());
        let k = (tracks.len() - 1) as nat;
        mask_tells_tracks(tracks.drop_last(), i);
        mask_tells_tracks(tracks.drop_last(), k);
        let once = with_bit(before, 2 * k);
        with_bit_sets_one(before, 2 * k, 2 * i);
        with_bit_sets_one(before, 2 * k, 2 * i + 1);
        with_bit_sets_one(once, 2 * k + 1, 2 * i);
        with_bit_sets_one(once, 2 * k + 1, 2 * i + 1);
    }
}

/// A mask is empty exactly where no slot changed.
pub proof fn mask_empty_iff_unmodified(tracks: Seq<TrackReplicate>)
    requires
        tracks.len() <= MASK_SLOTS,
    ensures
        mask_of(tracks) == 0 <==> (forall|i: int|
            0 <= i < tracks.len() ==> tracks[i] is Unmodified),
    decreases tracks.len(),
{
    if tracks.len() > 0 {
        let before = mask_of(tracks.drop_last());
        let k = (tracks.len() - 1) as nat;
        mask_empty_iff_unmodified(tracks.drop_last());
        with_bit_sets_one(before, 2 * k, 0);
        with_bit_sets_one(with_bit(before, 2 * k), 2 * k + 1, 0);
        assert(forall|i: int| 0 <= i < k ==> tracks.drop_last()[i] == tracks[i]);
        assert(tracks.last() == tracks[k as int]);
    }
}

} // verus!
