//! What is noted and sent of entities: the laws of histories and updates, stated of what the
//! functions are given and give.

use crate::client_server::PlayerId;
use crate::codec;
use crate::nid::{EntityMapper, IdGen, NetId};
use crate::server::{
    self, Descriptor, History, Missing, PlayerIdDescriptor, Replicate, Replicator, TrackReplicate,
};
use crate::server::replicas::{self, EntityUpdate, Replica, Replicas, WorldReplicaPack};
use crate::server::steps;
use crate::world;
use vstd::prelude::*;

verus! {

/// What was added last is fetched first, and each earlier point one further back. No point is lost
/// or changed, however many there are.
pub proof fn histories_keep_every_point<T>(
    history: &mut History<T>,
    value: Option<T>,
    back: u64,
    before: Result<Option<&T>, Missing>,
    after: Result<Option<&T>, Missing>,
)
    requires
        old(history)@.len() < server::BEYOND,
        back < server::BEYOND - 1,
        call_ensures(History::<T>::add, (history, value), ()),
        call_ensures(History::<T>::fetch, (&*old(history), back), before),
        call_ensures(History::<T>::fetch, (&*final(history), (back + 1) as u64), after),
    ensures
        final(history)@.len() == old(history)@.len() + 1,
        final(history)@[0] == value,
        after is Ok <==> before is Ok,
        after is Ok ==> server::referent(after->Ok_0) == server::referent(before->Ok_0),
{
}

/// A point that the history holds is fetched as it was added; beyond them there is none.
pub proof fn points_are_fetched<T>(
    history: History<T>,
    back: u64,
    state: Result<Option<&T>, Missing>,
)
    requires
        history@.len() < server::BEYOND,
        call_ensures(History::<T>::fetch, (&history, back), state),
    ensures
        back < history@.len() ==> state is Ok && server::referent(state->Ok_0)
            == history@[back as int],
        back >= history@.len() ==> state is Err,
{
}

/// What is sent of one descriptor's components depends on the point that it is compared with. Where
/// the components are there, the descriptor decides, from what was there at that point. Where they
/// are not, they are said to be removed, unless they were not there at that point either.
pub proof fn changes_are_told_against_a_point<D: Descriptor>(
    history: History<D::History>,
    back: u64,
    world: &mut hecs::World,
    entity: u64,
    result: TrackReplicate<Vec<u8>>,
)
    requires
        history@.len() < server::BEYOND,
        call_ensures(
            History::<D::History>::track_replicate::<D>,
            (&history, back, world, entity),
            result,
        ),
    ensures
        *final(world) == *old(world),
        ({
            let there = D::state(*old(world), entity) is Some;
            let point = if back < history@.len() {
                history@[back as int]
            } else {
                None
            };
            let reply = D::replica(*old(world), entity, point);
            &&& result is Removed <==> !there && (back >= history@.len() || point is Some)
            &&& result is Unmodified <==> (!there && back < history@.len() && point is None) || (
            there && reply is Unmodified)
            &&& result matches TrackReplicate::Modified(pack) ==> there && reply
                == Replicate::Modified(pack@)
        }),
{
}

/// A player is sent only where it is not the one of the point that it is compared with, and then
/// its number is.
pub proof fn players_are_sent_when_they_change(
    w: hecs::World,
    entity: u64,
    history: Option<PlayerId>,
)
    ensures
        <PlayerIdDescriptor as Descriptor>::state(w, entity) is Some <==> world::player_ids(
            w,
        ).contains_key(entity),
        world::player_ids(w).contains_key(entity) ==> {
            let player = world::player_ids(w)[entity];
            let reply = <PlayerIdDescriptor as Descriptor>::replica(w, entity, history);
            &&& <PlayerIdDescriptor as Descriptor>::state(w, entity) == Some(PlayerId(player))
            &&& reply is Unmodified <==> history == Some(PlayerId(player))
            &&& history != Some(PlayerId(player)) ==> reply == Replicate::Modified(
                codec::varint(player),
            )
        },
{
}

/// A row tells of each of its descriptors, in their order, against the same point, and notes the
/// state of each. It holds one history for each, without a past at first.
pub proof fn rows_are_their_descriptors<R: Replicator, T: Descriptor>(
    before: (R::Histories, History<T::History>),
    after: (R::Histories, History<T::History>),
    back: u64,
    w: hecs::World,
    entity: u64,
)
    requires
        before.1@.len() < server::BEYOND,
    ensures
        <(R, T) as Replicator>::count() == R::count() + 1,
        <() as Replicator>::count() == 0,
        ({
            let all = <(R, T) as Replicator>::tracks(before, back, w, entity);
            let first = R::tracks(before.0, back, w, entity);
            &&& all.len() == first.len() + 1
            &&& forall|i: int| 0 <= i < first.len() ==> #[trigger] all[i] == first[i]
            &&& all.last() == server::track::<T>(before.1@, back, w, entity)
        }),
        <(R, T) as Replicator>::recorded(before, after, w, entity) ==> {
            &&& R::recorded(before.0, after.0, w, entity)
            &&& after.1@.len() == before.1@.len() + 1
            &&& after.1@[0] == T::state(w, entity)
            &&& forall|k: int|
                0 <= k < before.1@.len() ==> #[trigger] after.1@[k + 1] == before.1@[k]
        },
        <(R, T) as Replicator>::fresh(before) <==> R::fresh(before.0) && before.1@.len() == 0,
{
    if <(R, T) as Replicator>::recorded(before, after, w, entity) {
        assert forall|k: int| 0 <= k < before.1@.len() implies #[trigger] after.1@[k + 1]
            == before.1@[k] by {
        }
    }
    if before.1@.len() == 0 {
        assert(before.1@ =~= Seq::empty());
    }
}

/// One who has seen an entity that the server owned is sent what changed since, no more: the entity
/// is compared with the very point. One who has not seen it, since the server did not own it then
/// or it was not there, is sent all of it.
pub proof fn entities_are_compared_with_what_was_seen<R: Replicator>(
    replica: Replica<R::Histories>,
    back: u64,
    w: hecs::World,
)
    requires
        replica.marks@.len() < server::BEYOND,
    ensures
        replicas::update_of::<R>(replica, back, w).nid == replica.nid.0,
        back < replica.marks@.len() && replica.marks@[back as int] == Some(())
            ==> replicas::update_of::<R>(replica, back, w).tracks == R::tracks(
            replica.histories,
            back,
            w,
            replica.entity,
        ),
        !(back < replica.marks@.len() && replica.marks@[back as int] == Some(()))
            ==> replicas::update_of::<R>(replica, back, w).tracks == R::tracks(
            replica.histories,
            0xFFFF_FFFF_FFFF_FFFF,
            w,
            replica.entity,
        ),
{
}

/// Whether anything of `replica` is sent: it still has its id, the server owns it, and one of its
/// descriptors has something to tell.
pub open spec fn is_told<R: Replicator>(
    replica: Replica<R::Histories>,
    back: u64,
    w: hecs::World,
) -> bool {
    &&& world::server_ids(w).contains_pair(replica.entity, replica.nid.0)
    &&& world::owned(w).contains(replica.entity)
    &&& exists|i: int|
        0 <= i < replicas::update_of::<R>(replica, back, w).tracks.len() && !(
        #[trigger] replicas::update_of::<R>(replica, back, w).tracks[i] is Unmodified)
}

/// Of all entities exactly those are sent that the server owns, that still have their ids and that
/// have something to tell, each once, in their order, however many there are.
pub proof fn what_has_changed_is_told<R: Replicator>(
    replicas: Seq<Replica<R::Histories>>,
    back: u64,
    w: hecs::World,
)
    ensures
        replicas::updates::<R>(replicas, back, w) == replicas.filter(
            |replica: Replica<R::Histories>| is_told::<R>(replica, back, w),
        ).map_values(|replica: Replica<R::Histories>| replicas::update_of::<R>(replica, back, w)),
    decreases replicas.len(),
{
    let told = |replica: Replica<R::Histories>| is_told::<R>(replica, back, w);
    let update = |replica: Replica<R::Histories>| replicas::update_of::<R>(replica, back, w);
    reveal(Seq::filter);
    if replicas.len() == 0 {
        assert(replicas.filter(told).map_values(update) =~= Seq::empty());
    } else {
        let rest = replicas.drop_last();
        let last = replicas.last();
        what_has_changed_is_told::<R>(rest, back, w);
        let tracks = update(last).tracks;
        if replicas::replicated(w, last) && update(last).changed() {
            let i = choose|i: int| 0 <= i < tracks.len() && tracks[i] !is Unmodified;
            assert(!(tracks[i] is Unmodified));
            assert(told(last));
            assert(replicas.filter(told).map_values(update) =~= rest.filter(told).map_values(
                update,
            ).push(update(last)));
        } else {
            if told(last) {
                let i = choose|i: int|
                    0 <= i < tracks.len() && !(#[trigger] tracks[i] is Unmodified);
                assert(update(last).changed());
            }
            assert(replicas.filter(told) == rest.filter(told));
        }
    }
}

/// An update of the world tells of as many entities as have something to tell, and of exactly the
/// ids whose entity has died, each once. Its bytes are those of the former, then those of the
/// latter.
pub proof fn packs_tell_what_has_changed<R: Replicator>(
    all: Replicas<R>,
    world: &mut hecs::World,
    mapper: EntityMapper,
    back: u64,
    pack: WorldReplicaPack,
)
    requires
        call_ensures(Replicas::<R>::pack, (&all, world, &mapper, back), pack),
    ensures
        *final(world) == *old(world),
        ({
            let told = all@.filter(
                |replica: Replica<R::Histories>| is_told::<R>(replica, back, *old(world)),
            ).map_values(
                |replica: Replica<R::Histories>|
                    replicas::update_of::<R>(replica, back, *old(world)),
            );
            &&& pack.updated == told.len()
            &&& pack.body@ == replicas::updates_bytes(told) + replicas::ids_bytes(pack.removed@)
        }),
        forall|i: int, j: int|
            0 <= i < j < pack.removed@.len() ==> (#[trigger] pack.removed@[i]).0 != (
            #[trigger] pack.removed@[j]).0,
        forall|k: int|
            0 <= k < pack.removed@.len() ==> {
                let nid = (#[trigger] pack.removed@[k]).0;
                mapper@.contains_key(nid) && world::dead_handles(*old(world)).contains(mapper@[nid])
            },
        forall|nid: u64| #[trigger]
            mapper@.contains_key(nid) && world::dead_handles(*old(world)).contains(mapper@[nid])
                ==> exists|k: int|
                0 <= k < pack.removed@.len() && (#[trigger] pack.removed@[k]).0 == nid,
{
    what_has_changed_is_told::<R>(all@, back, *old(world));
    assert forall|k: int| 0 <= k < pack.removed@.len() implies {
        let nid = (#[trigger] pack.removed@[k]).0;
        mapper@.contains_key(nid) && world::dead_handles(*old(world)).contains(mapper@[nid])
    } by {
        assert(pack.removed@.contains(pack.removed@[k]));
    }
    assert forall|nid: u64| #[trigger]
        mapper@.contains_key(nid) && world::dead_handles(*old(world)).contains(
            mapper@[nid],
        ) implies exists|k: int|
        0 <= k < pack.removed@.len() && (#[trigger] pack.removed@[k]).0 == nid by {
        assert(mapper.removed(*old(world)).contains(NetId(nid).0));
        assert(pack.removed@.contains(NetId(nid)));
        let k = choose|k: int| 0 <= k < pack.removed@.len() && pack.removed@[k] == NetId(nid);
        assert(pack.removed@[k].0 == nid);
    }
    assert forall|i: int, j: int| 0 <= i < j < pack.removed@.len() implies (#[trigger]
    pack.removed@[i]).0 != (#[trigger] pack.removed@[j]).0 by {
        assert(pack.removed@[i] != pack.removed@[j]);
    }
}

/// The bytes of updates, of removed ids and of states are those of the first, then those of the
/// rest; nothing stands between them. One update is its id, the mask of what changed, and the new
/// states.
pub proof fn bytes_follow_each_other(
    updates: Seq<EntityUpdate>,
    update: EntityUpdate,
    ids: Seq<NetId>,
    nid: NetId,
    tracks: Seq<TrackReplicate<Seq<u8>>>,
    pack: Seq<u8>,
)
    ensures
        replicas::updates_bytes(updates.push(update)) == replicas::updates_bytes(updates)
            + codec::varint(update.nid) + codec::varint(
            crate::mask::mask_of(server::kinds(update.tracks)) as u64,
        ) + replicas::states(update.tracks),
        replicas::updates_bytes(Seq::empty()) == Seq::<u8>::empty(),
        replicas::ids_bytes(ids.push(nid)) == replicas::ids_bytes(ids) + codec::varint(nid.0),
        replicas::ids_bytes(Seq::empty()) == Seq::<u8>::empty(),
        replicas::states(tracks.push(TrackReplicate::Modified(pack))) == replicas::states(tracks)
            + pack,
        replicas::states(tracks.push(TrackReplicate::Unmodified)) == replicas::states(tracks),
        replicas::states(tracks.push(TrackReplicate::Removed)) == replicas::states(tracks),
        replicas::states(Seq::empty()) == Seq::<u8>::empty(),
{
    assert(updates.push(update).drop_last() =~= updates);
    assert(ids.push(nid).drop_last() =~= ids);
    assert(tracks.push(TrackReplicate::Modified(pack)).drop_last() =~= tracks);
    assert(tracks.push(TrackReplicate::Unmodified).drop_last() =~= tracks);
    assert(tracks.push(TrackReplicate::Removed).drop_last() =~= tracks);
    assert(replicas::updates_bytes(updates.push(update)) =~= replicas::updates_bytes(updates)
        + codec::varint(update.nid) + codec::varint(
        crate::mask::mask_of(server::kinds(update.tracks)) as u64,
    ) + replicas::states(update.tracks));
}

/// At a step the state of every entity that still has its id is noted, the newest first, with
/// whether the server owns it; no earlier point is lost. All other entities are dropped. The order
/// stays.
pub proof fn every_live_entity_is_noted<R: Replicator>(
    all: &mut Replicas<R>,
    world: &mut hecs::World,
)
    requires
        call_ensures(Replicas::<R>::update_history, (all, world), ()),
    ensures
        *final(world) == *old(world),
        ({
            let kept = old(all)@.filter(
                |replica: Replica<R::Histories>|
                    world::server_ids(*old(world)).contains_pair(replica.entity, replica.nid.0),
            );
            &&& final(all)@.len() == kept.len()
            &&& forall|i: int|
                0 <= i < kept.len() ==> {
                    let row = #[trigger] final(all)@[i];
                    &&& row.entity == kept[i].entity
                    &&& row.nid == kept[i].nid
                    &&& R::recorded(kept[i].histories, row.histories, *old(world), row.entity)
                    &&& row.marks@.len() == kept[i].marks@.len() + 1
                    &&& row.marks@[0] is Some <==> world::owned(*old(world)).contains(row.entity)
                    &&& forall|k: int|
                        0 <= k < kept[i].marks@.len() ==> #[trigger] row.marks@[k + 1]
                            == kept[i].marks@[k]
                }
        }),
{
    lemma_survivors_are_filtered(old(all)@, *old(world));
    let kept = replicas::survivors(old(all)@, *old(world));
    assert forall|i: int| 0 <= i < kept.len() implies {
        let row = #[trigger] final(all)@[i];
        &&& row.entity == kept[i].entity
        &&& row.nid == kept[i].nid
        &&& R::recorded(kept[i].histories, row.histories, *old(world), row.entity)
        &&& row.marks@.len() == kept[i].marks@.len() + 1
        &&& row.marks@[0] is Some <==> world::owned(*old(world)).contains(row.entity)
        &&& forall|k: int|
            0 <= k < kept[i].marks@.len() ==> #[trigger] row.marks@[k + 1] == kept[i].marks@[k]
    } by {
        let row = final(all)@[i];
        assert(replicas::recorded::<R>(kept[i], row, *old(world)));
        assert forall|k: int| 0 <= k < kept[i].marks@.len() implies #[trigger] row.marks@[k + 1]
            == kept[i].marks@[k] by {
        }
    }
}

proof fn lemma_survivors_are_filtered<H>(rows: Seq<Replica<H>>, w: hecs::World)
    ensures
        replicas::survivors(rows, w) == rows.filter(
            |replica: Replica<H>|
                world::server_ids(w).contains_pair(replica.entity, replica.nid.0),
        ),
    decreases rows.len(),
{
    reveal(Seq::filter);
    if rows.len() > 0 {
        lemma_survivors_are_filtered(rows.drop_last(), w);
    }
}

/// A server begins to replicate exactly the entities that it owns and that have no id yet, all of
/// them at once. Each gets an id that was never handed out, by which it is mapped, and starts
/// without a past. Those before stay as they are, and so does everything else in the world.
pub proof fn owned_entities_are_adopted<R: Replicator>(
    all: &mut Replicas<R>,
    world: &mut hecs::World,
    id_gen: &mut IdGen,
    mapper: &mut EntityMapper,
)
    requires
        old(id_gen).wf(),
        old(mapper).issued_by(*old(id_gen)),
        call_ensures(Replicas::<R>::init_entities, (all, world, id_gen, mapper), ()),
    ensures
        final(all)@.len() >= old(all)@.len(),
        forall|i: int| 0 <= i < old(all)@.len() ==> #[trigger] final(all)@[i] == old(all)@[i],
        forall|i: int|
            old(all)@.len() <= i < final(all)@.len() ==> {
                let row = #[trigger] final(all)@[i];
                &&& world::owned(*old(world)).contains(row.entity)
                &&& !world::server_ids(*old(world)).contains_key(row.entity)
                &&& world::server_ids(*final(world)).contains_key(row.entity)
                &&& final(mapper)@.contains_pair(row.nid.0, row.entity)
                &&& !old(mapper)@.contains_key(row.nid.0)
                &&& old(id_gen).next() <= row.nid.0 < final(id_gen).next()
                &&& row.nid.0 > 0
                &&& R::fresh(row.histories)
                &&& row.marks@.len() == 0
            },
        forall|e: u64| #[trigger]
            world::owned(*old(world)).contains(e) ==> world::server_ids(
                *final(world),
            ).contains_key(e),
        forall|e: u64| #[trigger]
            world::server_ids(*old(world)).contains_key(e) ==> world::server_ids(
                *final(world),
            ).contains_key(e) && world::server_ids(*final(world))[e] == world::server_ids(
                *old(world),
            )[e],
        forall|e: u64| #[trigger]
            world::server_ids(*final(world)).contains_key(e) ==> world::server_ids(
                *old(world),
            ).contains_key(e) || world::owned(*old(world)).contains(e),
        final(id_gen).next() - old(id_gen).next() == final(all)@.len() - old(all)@.len(),
        world::net_ids(*final(world)) == world::net_ids(*old(world)),
        world::player_ids(*final(world)) == world::player_ids(*old(world)),
        world::owned(*final(world)) == world::owned(*old(world)),
        world::others(*final(world)) == world::others(*old(world)),
        world::population(*final(world)) == world::population(*old(world)),
{
    let r0 = old(all)@;
    let r1 = final(all)@;
    let w0 = *old(world);
    let w1 = *final(world);
    let news = r1.skip(r0.len() as int);
    assert forall|i: int| 0 <= i < r0.len() implies #[trigger] r1[i] == r0[i] by {
        assert(r1.take(r0.len() as int)[i] == r1[i]);
    }
    assert forall|e: u64| #[trigger] world::owned(w0).contains(e) implies world::server_ids(
        w1,
    ).contains_key(e) by {
        steps::owned_are_adopted::<R>(
            r0,
            *old(id_gen),
            *old(mapper),
            w0,
            r1,
            *final(id_gen),
            *final(mapper),
            w1,
            e,
        );
    }
    assert forall|i: int| r0.len() <= i < r1.len() implies {
        let row = #[trigger] r1[i];
        &&& world::owned(w0).contains(row.entity)
        &&& !world::server_ids(w0).contains_key(row.entity)
        &&& world::server_ids(w1).contains_key(row.entity)
        &&& final(mapper)@.contains_pair(row.nid.0, row.entity)
        &&& !old(mapper)@.contains_key(row.nid.0)
        &&& old(id_gen).next() <= row.nid.0 < final(id_gen).next()
        &&& row.nid.0 > 0
        &&& R::fresh(row.histories)
        &&& row.marks@.len() == 0
    } by {
        let k = i - r0.len();
        assert(news[k] == r1[i]);
        assert(replicas::is_new::<R>(news[k], news[k].entity, (old(id_gen).next() + k) as u64));
        assert(replicas::handles(news)[k] == news[k].entity);
        assert(replicas::handles(news).to_set().contains(news[k].entity));
        assert(old(id_gen).next() + k < final(id_gen).next());
        if old(mapper)@.contains_key(r1[i].nid.0) {
            assert(r1[i].nid.0 < old(id_gen).next());
        }
        assert(world::owned(w0).contains(news[k].entity));
    }
    assert forall|e: u64| #[trigger] world::server_ids(w0).contains_key(e) implies
        world::server_ids(w1).contains_key(e) && world::server_ids(w1)[e] == world::server_ids(
        w0,
    )[e] by {
        steps::ids_stay(world::server_ids(w0), news, e);
        if exists|k: int| 0 <= k < news.len() && (#[trigger] news[k]).entity == e {
            let k = choose|k: int| 0 <= k < news.len() && (#[trigger] news[k]).entity == e;
            assert(replicas::handles(news)[k] == e);
            assert(replicas::handles(news).to_set().contains(e));
        }
    }
    assert forall|e: u64| #[trigger] world::server_ids(w1).contains_key(e) implies
        world::server_ids(w0).contains_key(e) || world::owned(w0).contains(e) by {
        steps::ids_stay(world::server_ids(w0), news, e);
        if !world::server_ids(w0).contains_key(e) {
            let k = choose|k: int| 0 <= k < news.len() && (#[trigger] news[k]).entity == e;
            assert(replicas::handles(news)[k] == e);
            assert(replicas::handles(news).to_set().contains(e));
        }
    }
    assert(world::population(w1) =~= world::population(w0));
}

/// A component that is sent whole is sent unless the point that it is compared with equals it.
pub proof fn equal_components_are_not_sent<'a, T: PartialEq>(
    item: &'a T,
    point: Option<&T>,
    replicate: Replicate<&'a T>,
)
    requires
        call_ensures(server::replicate_component::<T>, (item, point), replicate),
    ensures
        replicate matches Replicate::Modified(sent) ==> *sent == *item,
        point is None ==> replicate is Modified,
        point matches Some(point) ==> (replicate is Unmodified ==> call_ensures(
            T::eq,
            (point, item),
            true,
        )),
        point matches Some(point) ==> (replicate is Modified ==> call_ensures(
            T::eq,
            (point, item),
            false,
        )),
{
}

/// To begin with nothing is replicated and nothing is past.
pub proof fn nothing_is_past_at_first<R: Replicator, T>(
    none: Replicas<R>,
    all: Replicas<R>,
    len: usize,
    history: History<T>,
)
    requires
        call_ensures(Replicas::<R>::new, (), none),
        call_ensures(Replicas::<R>::len, (&all,), len),
        call_ensures(History::<T>::new, (), history),
    ensures
        none@.len() == 0,
        len == all@.len(),
        history@.len() == 0,
{
}

} // verus!
