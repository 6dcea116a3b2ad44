//! What replication achieves: the laws that hold between a server and its clients.

use crate::client::BadMessage;
use crate::client::replicator::{self, ReplicateError};
use crate::codec;
use crate::mask;
use crate::nid::{self, MapperError, NetId};
use crate::server;
use crate::server::replicas::{self, EntityUpdate};
use crate::world;
use vstd::prelude::*;

verus! {

/// `m1` and `w1` are the mapping `m0` and the world `w0` after a client did what `update` tells,
/// with `result`.
pub open spec fn update_followed<R: replicator::Replicator>(
    m0: Map<u64, u64>,
    w0: hecs::World,
    m1: Map<u64, u64>,
    w1: hecs::World,
    update: EntityUpdate,
    result: Result<(), ReplicateError>,
) -> bool {
    exists|between: hecs::World, entity: Result<u64, MapperError>| #[trigger]
        nid::obtained(m0, w0, m1, between, update.nid, entity) && match entity {
            Err(err) => w1 == between && result == Err::<(), _>(ReplicateError::Mapper(err)),
            Ok(e) => R::followed(between, w1, e, update.tracks) && result is Ok,
        }
}

/// `m1` and `w1` are the mapping `m0` and the world `w0` after a client did what `updates` tell, in
/// order, with `result`. The first that has no entity ends it.
pub open spec fn updates_followed<R: replicator::Replicator>(
    updates: Seq<EntityUpdate>,
    m0: Map<u64, u64>,
    w0: hecs::World,
    m1: Map<u64, u64>,
    w1: hecs::World,
    result: Result<(), ReplicateError>,
) -> bool
    decreases updates.len(),
{
    if updates.len() == 0 {
        m1 == m0 && w1 == w0 && result is Ok
    } else {
        let rest = updates.drop_last();
        ||| result is Err && updates_followed::<R>(rest, m0, w0, m1, w1, result)
        ||| exists|m: Map<u64, u64>, w: hecs::World|
            {
                &&& updates_followed::<R>(rest, m0, w0, m, w, Ok(()))
                &&& #[trigger] update_followed::<R>(m, w, m1, w1, updates.last(), result)
            }
    }
}

/// `w1` is the world `w0` after the entity of `nid` under `m` was despawned, if there is one, with
/// `result`.
pub open spec fn removal_followed(
    m: Map<u64, u64>,
    w0: hecs::World,
    w1: hecs::World,
    nid: NetId,
    result: Result<(), ReplicateError>,
) -> bool {
    replicator::removed(m, w0, w1, nid.0, result)
}

/// `w1` is the world `w0` after the entities of `ids` under `m` were despawned, in order, with
/// `result`.
pub open spec fn removals_followed(
    ids: Seq<NetId>,
    m: Map<u64, u64>,
    w0: hecs::World,
    w1: hecs::World,
    result: Result<(), ReplicateError>,
) -> bool
    decreases ids.len(),
{
    if ids.len() == 0 {
        w1 == w0 && result is Ok
    } else {
        let rest = ids.drop_last();
        ||| result is Err && removals_followed(rest, m, w0, w1, result)
        ||| exists|w: hecs::World|
            {
                &&& removals_followed(rest, m, w0, w, Ok(()))
                &&& #[trigger] removal_followed(m, w, w1, ids.last(), result)
            }
    }
}

/// `m1` and `w1` are the mapping `m0` and the world `w0` after a client did what `updates` tell and
/// then despawned the entities of `ids`, with `result`.
pub open spec fn message_followed<R: replicator::Replicator>(
    updates: Seq<EntityUpdate>,
    ids: Seq<NetId>,
    m0: Map<u64, u64>,
    w0: hecs::World,
    m1: Map<u64, u64>,
    w1: hecs::World,
    result: Result<(), ReplicateError>,
) -> bool {
    ||| result is Err && updates_followed::<R>(updates, m0, w0, m1, w1, result)
    ||| exists|w: hecs::World|
        {
            &&& #[trigger] updates_followed::<R>(updates, m0, w0, m1, w, Ok(()))
            &&& removals_followed(ids, m1, w, w1, result)
        }
}

/// Every id can be sent, and each new state can be read by the client's descriptors.
pub open spec fn sendable<R: replicator::Replicator>(updates: Seq<EntityUpdate>) -> bool {
    forall|i: int|
        0 <= i < updates.len() ==> {
            &&& (#[trigger] updates[i]).nid != 0
            &&& updates[i].tracks.len() <= mask::MASK_SLOTS
            &&& R::accepts(updates[i].tracks)
        }
}

/// The update of one entity is read as it was written.
pub proof fn update_arrives<R: replicator::Replicator>(
    update: EntityUpdate,
    rest: Seq<u8>,
    m0: Map<u64, u64>,
    w0: hecs::World,
    m1: Map<u64, u64>,
    w1: hecs::World,
    result: Result<(), ReplicateError>,
)
    requires
        update.nid != 0,
        update.tracks.len() <= mask::MASK_SLOTS,
        R::accepts(update.tracks),
    ensures
        replicator::entity_read::<R>(update.bytes() + rest) == Ok::<nat, BadMessage>(
            update.bytes().len(),
        ),
        replicator::entity_applied::<R>(m0, w0, m1, w1, update.bytes() + rest, result)
            ==> update_followed::<R>(m0, w0, m1, w1, update, result),
{
    let kinds = server::kinds(update.tracks);
    let bits = mask::mask_of(kinds);
    let states = replicas::states(update.tracks);
    let head = codec::varint(update.nid);
    let mid = codec::varint(bits as u64);
    let bytes = update.bytes() + rest;
    assert(bytes =~= head + (mid + (states + rest)));
    codec::varint_round_trip(update.nid, mid + (states + rest));
    assert(bytes.skip(head.len() as int) =~= mid + (states + rest));
    codec::varint_round_trip(bits as u64, states + rest);
    let n = head.len() + mid.len();
    assert(bytes.skip(n as int) =~= states + rest);
    assert forall|i: int| 0 <= i < update.tracks.len() implies mask::track_at(bits, i as nat) == Ok::<
        _,
        BadMessage,
    >((#[trigger] update.tracks[i]).kind()) by {
        mask::mask_tells_tracks(kinds, i as nat);
        assert(kinds[i] == update.tracks[i].kind());
    }
    assert(replicator::header_read(bytes) == Some((update.nid, bits, n)));
    R::applied_is_followed(w0, w1, 0, bits, update.tracks, rest);
    if replicator::entity_applied::<R>(m0, w0, m1, w1, bytes, result) {
        let (between, entity) = choose|between: hecs::World, entity: Result<u64, MapperError>|
         #[trigger]
            nid::obtained(m0, w0, m1, between, update.nid, entity) && match entity {
                Err(err) => w1 == between && result == Err::<(), _>(ReplicateError::Mapper(err)),
                Ok(e) => {
                    &&& R::applied(between, w1, e, bits, bytes.skip(n as int))
                    &&& result == (match R::read(bits, bytes.skip(n as int)) {
                        Ok(_) => Ok(()),
                        Err(err) => Err(ReplicateError::BadMessage(err)),
                    })
                },
            };
        if let Ok(e) = entity {
            R::applied_is_followed(between, w1, e, bits, update.tracks, rest);
        }
        assert(nid::obtained(m0, w0, m1, between, update.nid, entity));
    }
}

/// The updates of many entities are read as they were written.
pub proof fn updates_arrive<R: replicator::Replicator>(
    updates: Seq<EntityUpdate>,
    rest: Seq<u8>,
    m0: Map<u64, u64>,
    w0: hecs::World,
    m1: Map<u64, u64>,
    w1: hecs::World,
    result: Result<(), ReplicateError>,
)
    requires
        sendable::<R>(updates),
    ensures
        replicator::entities_read::<R>(
            updates.len(),
            replicas::updates_bytes(updates) + rest,
        ) == Ok::<nat, BadMessage>(replicas::updates_bytes(updates).len()),
        replicator::entities_applied::<R>(
            updates.len(),
            m0,
            w0,
            m1,
            w1,
            replicas::updates_bytes(updates) + rest,
            result,
        ) ==> updates_followed::<R>(updates, m0, w0, m1, w1, result),
    decreases updates.len(),
{
    if updates.len() > 0 {
        let firsts = updates.drop_last();
        let last = updates.last();
        let own = last.bytes() + rest;
        let bytes = replicas::updates_bytes(updates) + rest;
        let n = replicas::updates_bytes(firsts).len();
        assert(bytes =~= replicas::updates_bytes(firsts) + own);
        assert(bytes.skip(n as int) =~= own);
        assert forall|i: int| 0 <= i < firsts.len() implies {
            &&& (#[trigger] firsts[i]).nid != 0
            &&& firsts[i].tracks.len() <= mask::MASK_SLOTS
            &&& R::accepts(firsts[i].tracks)
        } by {
            assert(updates[i] == firsts[i]);
        }
        assert(updates[updates.len() - 1] == last);
        updates_arrive::<R>(firsts, own, m0, w0, m1, w1, result);
        update_arrives::<R>(last, rest, m0, w0, m1, w1, result);
        if replicator::entities_applied::<R>(updates.len(), m0, w0, m1, w1, bytes, result) {
            let count = (updates.len() - 1) as nat;
            if !(result is Err && replicator::entities_applied::<R>(
                count,
                m0,
                w0,
                m1,
                w1,
                bytes,
                result,
            )) {
                let (m, w) = choose|m: Map<u64, u64>, w: hecs::World|
                    {
                        &&& replicator::entities_applied::<R>(count, m0, w0, m, w, bytes, Ok(()))
                        &&& #[trigger] replicator::entity_applied::<R>(
                            m,
                            w,
                            m1,
                            w1,
                            bytes.skip(replicator::entities_read::<R>(count, bytes)->Ok_0 as int),
                            result,
                        )
                    };
                updates_arrive::<R>(firsts, own, m0, w0, m, w, Ok(()));
                update_arrives::<R>(last, rest, m, w, m1, w1, result);
                assert(update_followed::<R>(m, w, m1, w1, last, result));
            }
        }
    }
}

/// Removed ids are read as they were written.
pub proof fn removals_arrive(
    ids: Seq<NetId>,
    rest: Seq<u8>,
    m: Map<u64, u64>,
    w0: hecs::World,
    w1: hecs::World,
    result: Result<(), ReplicateError>,
)
    requires
        forall|i: int| 0 <= i < ids.len() ==> (#[trigger] ids[i]).0 != 0,
    ensures
        replicator::ids_read(ids.len(), replicas::ids_bytes(ids) + rest) == Ok::<nat, BadMessage>(
            replicas::ids_bytes(ids).len(),
        ),
        replicator::removals_applied(
            ids.len(),
            m,
            w0,
            w1,
            replicas::ids_bytes(ids) + rest,
            result,
        ) ==> removals_followed(ids, m, w0, w1, result),
    decreases ids.len(),
{
    if ids.len() > 0 {
        let firsts = ids.drop_last();
        let last = ids.last();
        let own = codec::varint(last.0) + rest;
        let bytes = replicas::ids_bytes(ids) + rest;
        let n = replicas::ids_bytes(firsts).len();
        assert(bytes =~= replicas::ids_bytes(firsts) + own);
        assert(bytes.skip(n as int) =~= own);
        assert forall|i: int| 0 <= i < firsts.len() implies (#[trigger] firsts[i]).0 != 0 by {
            assert(ids[i] == firsts[i]);
        }
        assert(ids[ids.len() - 1] == last);
        codec::varint_round_trip(last.0, rest);
        removals_arrive(firsts, own, m, w0, w1, result);
        if replicator::removals_applied(ids.len(), m, w0, w1, bytes, result) {
            let count = (ids.len() - 1) as nat;
            if !(result is Err && replicator::removals_applied(count, m, w0, w1, bytes, result)) {
                let w = choose|w: hecs::World|
                    {
                        &&& replicator::removals_applied(count, m, w0, w, bytes, Ok(()))
                        &&& #[trigger] replicator::removal_applied(
                            m,
                            w,
                            w1,
                            bytes.skip(replicator::ids_read(count, bytes)->Ok_0 as int),
                            result,
                        )
                    };
                removals_arrive(firsts, own, m, w0, w, Ok(()));
                assert(removal_followed(m, w, w1, last, result));
            }
        }
    }
}

/// What a server sends of its world is what a client does with its own: the ids, the changes and
/// the removed ids come out as they went in, whatever bytes follow them, and the message is never
/// found bad.
pub proof fn message_arrives<R: replicator::Replicator>(
    updates: Seq<EntityUpdate>,
    ids: Seq<NetId>,
    rest: Seq<u8>,
    m0: Map<u64, u64>,
    w0: hecs::World,
    m1: Map<u64, u64>,
    w1: hecs::World,
    result: Result<(), ReplicateError>,
)
    requires
        sendable::<R>(updates),
        forall|i: int| 0 <= i < ids.len() ==> (#[trigger] ids[i]).0 != 0,
        replicator::message_applied::<R>(
            updates.len(),
            ids.len(),
            m0,
            w0,
            m1,
            w1,
            replicas::updates_bytes(updates) + replicas::ids_bytes(ids) + rest,
            result,
        ),
    ensures
        message_followed::<R>(updates, ids, m0, w0, m1, w1, result),
        !(result matches Err(ReplicateError::BadMessage(_))),
{
    let tail = replicas::ids_bytes(ids) + rest;
    let bytes = replicas::updates_bytes(updates) + replicas::ids_bytes(ids) + rest;
    let n = replicas::updates_bytes(updates).len();
    assert(bytes =~= replicas::updates_bytes(updates) + tail);
    assert(bytes.skip(n as int) =~= tail);
    updates_arrive::<R>(updates, tail, m0, w0, m1, w1, result);
    if result is Err && replicator::entities_applied::<R>(
        updates.len(),
        m0,
        w0,
        m1,
        w1,
        bytes,
        result,
    ) {
        lemma_followed_is_good::<R>(updates, m0, w0, m1, w1, result);
    } else {
        let w = choose|w: hecs::World|
            {
                &&& #[trigger] replicator::entities_applied::<R>(
                    updates.len(),
                    m0,
                    w0,
                    m1,
                    w,
                    bytes,
                    Ok(()),
                )
                &&& replicator::removals_applied(ids.len(), m1, w, w1, tail, result)
            };
        updates_arrive::<R>(updates, tail, m0, w0, m1, w, Ok(()));
        removals_arrive(ids, rest, m1, w, w1, result);
        lemma_removed_is_good(ids, m1, w, w1, result);
        assert(updates_followed::<R>(updates, m0, w0, m1, w, Ok(())));
    }
}

proof fn lemma_followed_is_good<R: replicator::Replicator>(
    updates: Seq<EntityUpdate>,
    m0: Map<u64, u64>,
    w0: hecs::World,
    m1: Map<u64, u64>,
    w1: hecs::World,
    result: Result<(), ReplicateError>,
)
    requires
        updates_followed::<R>(updates, m0, w0, m1, w1, result),
    ensures
        !(result matches Err(ReplicateError::BadMessage(_))),
    decreases updates.len(),
{
    if updates.len() > 0 {
        let rest = updates.drop_last();
        if result is Err && updates_followed::<R>(rest, m0, w0, m1, w1, result) {
            lemma_followed_is_good::<R>(rest, m0, w0, m1, w1, result);
        }
    }
}

proof fn lemma_removed_is_good(
    ids: Seq<NetId>,
    m: Map<u64, u64>,
    w0: hecs::World,
    w1: hecs::World,
    result: Result<(), ReplicateError>,
)
    requires
        removals_followed(ids, m, w0, w1, result),
    ensures
        !(result matches Err(ReplicateError::BadMessage(_))),
    decreases ids.len(),
{
    if ids.len() > 0 {
        let rest = ids.drop_last();
        if result is Err && removals_followed(rest, m, w0, w1, result) {
            lemma_removed_is_good(rest, m, w0, w1, result);
        }
    }
}

} // verus!
