//! The entities that a server replicates, each with its histories, and what is sent of them.

use crate::codec;
use crate::mask;
use crate::nid::{EntityMapper, IdGen, NetId};
use crate::server::{self, History, Missing, Replicator, TrackReplicate};
use crate::world;
use vstd::prelude::*;

verus! {

/// An entity that a server replicates.
pub struct Replica<H> {
    /// The entity's handle.
    pub entity: u64,
    /// The id that is sent for it.
    pub nid: NetId,
    /// The past of what the descriptors cover.
    pub histories: H,
    /// At which of those points the server owned the entity.
    pub marks: History<()>,
}

/// What is noted of `entity` in `w`: whether the server owns it.
pub open spec fn mark(w: hecs::World, entity: u64) -> Option<()> {
    if world::owned(w).contains(entity) {
        Some(())
    } else {
        None
    }
}

/// How far back the point lies that the entity of `replica` is compared with for one who has seen
/// all that was sent up to `back` points before the newest. Nothing was sent of the entity at a
/// point at which the server did not own it, so there is no point to compare with then.
pub open spec fn compared<H>(replica: Replica<H>, back: u64) -> u64 {
    if server::past(replica.marks@, back) == Ok::<Option<()>, Missing>(Some(())) {
        back
    } else {
        server::BEYOND
    }
}

/// Whether the entity of `replica` still is what it was adopted as: a despawned entity is not.
pub open spec fn live<H>(w: hecs::World, replica: Replica<H>) -> bool {
    world::server_ids(w).contains_pair(replica.entity, replica.nid.0)
}

/// Whether the entity of `replica` is sent to clients: it is live, and the server still owns it.
pub open spec fn replicated<H>(w: hecs::World, replica: Replica<H>) -> bool {
    live(w, replica) && world::owned(w).contains(replica.entity)
}

/// `replica` was made of `entity` and has no past.
pub open spec fn is_new<R: Replicator>(
    replica: Replica<R::Histories>,
    entity: u64,
    nid: u64,
) -> bool {
    &&& replica.entity == entity
    &&& replica.nid == NetId(nid)
    &&& R::fresh(replica.histories)
    &&& replica.marks@ == Seq::<Option<()>>::empty()
}

/// `r1` is `r0` with each entity added that the server owns in `w0` and that `r0` does not hold
/// yet. Their ids are the next of `g0`, and both the mapping and the world learn of them.
pub open spec fn entities_added<R: Replicator>(
    r0: Seq<Replica<R::Histories>>,
    g0: IdGen,
    m0: Map<u64, u64>,
    w0: hecs::World,
    r1: Seq<Replica<R::Histories>>,
    g1: IdGen,
    m1: Map<u64, u64>,
    w1: hecs::World,
) -> bool {
    let news = r1.skip(r0.len() as int);
    &&& r0.len() <= r1.len()
    &&& news.len() <= world::MAX_ENTITIES
    &&& r1.take(r0.len() as int) == r0
    &&& handles(news).no_duplicates()
    &&& handles(news).to_set() == world::owned(w0).difference(world::server_ids(w0).dom())
    &&& forall|i: int|
        0 <= i < news.len() ==> is_new::<R>(
            #[trigger] news[i],
            news[i].entity,
            (g0.next() + i) as u64,
        )
    &&& g1.next() == g0.next() + news.len()
    &&& m1 == map_ids(m0, news)
    &&& world::server_ids(w1) == map_handles(world::server_ids(w0), news)
    &&& world::aged(w0, w1)
    &&& if news.len() == 0 {
        w1 == w0
    } else {
        world::flushed(w0, w1)
    }
    &&& world::others(w1) == world::others(w0)
    &&& world::net_ids(w1) == world::net_ids(w0)
    &&& world::player_ids(w1) == world::player_ids(w0)
    &&& world::owned(w1) == world::owned(w0)
}

/// `r1` is what survives of `r0` in `w`, with the state of each entity added to its histories.
pub open spec fn histories_updated<R: Replicator>(
    r0: Seq<Replica<R::Histories>>,
    r1: Seq<Replica<R::Histories>>,
    w: hecs::World,
) -> bool {
    &&& r1.len() == survivors(r0, w).len()
    &&& forall|i: int|
        0 <= i < r1.len() ==> recorded::<R>(survivors(r0, w)[i], #[trigger] r1[i], w)
    &&& forall|i: int|
        0 <= i < r1.len() ==> !world::dead_handles(w).contains((#[trigger] r1[i]).entity)
}

/// `pack` is the update of `w` for one who has seen the state of `replicas` `back` points before
/// the newest, and tells of the ids that `mapper` holds of dead entities. No live one is dead.
pub open spec fn packed<R: Replicator>(
    pack: WorldReplicaPack,
    replicas: Seq<Replica<R::Histories>>,
    mapper: EntityMapper,
    back: u64,
    w: hecs::World,
) -> bool {
    &&& pack.updated == updates::<R>(replicas, back, w).len()
    &&& pack.removed@.no_duplicates()
    &&& forall|nid: NetId| #[trigger]
        pack.removed@.contains(nid) <==> mapper.removed(w).contains(nid.0)
    &&& pack.body@ == updates_bytes(updates::<R>(replicas, back, w)) + ids_bytes(pack.removed@)
    &&& forall|i: int|
        0 <= i < replicas.len() && live(w, #[trigger] replicas[i]) ==> !world::dead_handles(
            w,
        ).contains(replicas[i].entity)
}

/// `after` is `before` with the state of its entity in `w` added to each history, and with a note
/// whether the server owns it there.
pub open spec fn recorded<R: Replicator>(
    before: Replica<R::Histories>,
    after: Replica<R::Histories>,
    w: hecs::World,
) -> bool {
    &&& after.entity == before.entity
    &&& after.nid == before.nid
    &&& R::recorded(before.histories, after.histories, w, before.entity)
    &&& after.marks@ == seq![mark(w, before.entity)] + before.marks@
}

/// Those of `replicas` that are live in `w`, in their order.
pub open spec fn survivors<H>(replicas: Seq<Replica<H>>, w: hecs::World) -> Seq<Replica<H>>
    decreases replicas.len(),
{
    if replicas.len() == 0 {
        Seq::empty()
    } else {
        let before = survivors(replicas.drop_last(), w);
        if live(w, replicas.last()) {
            before.push(replicas.last())
        } else {
            before
        }
    }
}

/// The handles of `replicas`, in their order.
pub open spec fn handles<H>(replicas: Seq<Replica<H>>) -> Seq<u64> {
    replicas.map_values(|replica: Replica<H>| replica.entity)
}

/// `ids` with the id of each of `replicas` mapped to its entity.
pub open spec fn map_ids<H>(ids: Map<u64, u64>, replicas: Seq<Replica<H>>) -> Map<u64, u64>
    decreases replicas.len(),
{
    if replicas.len() == 0 {
        ids
    } else {
        map_ids(ids, replicas.drop_last()).insert(replicas.last().nid.0, replicas.last().entity)
    }
}

/// `ids` with the entity of each of `replicas` mapped to its id.
pub open spec fn map_handles<H>(ids: Map<u64, u64>, replicas: Seq<Replica<H>>) -> Map<u64, u64>
    decreases replicas.len(),
{
    if replicas.len() == 0 {
        ids
    } else {
        map_handles(ids, replicas.drop_last()).insert(
            replicas.last().entity,
            replicas.last().nid.0,
        )
    }
}

/// No two of `replicas` have the same id, and `ids` maps the id of each to its entity.
pub open spec fn consistent<H>(replicas: Seq<Replica<H>>, ids: Map<u64, u64>) -> bool {
    &&& forall|i: int|
        0 <= i < replicas.len() ==> ids.contains_pair(
            (#[trigger] replicas[i]).nid.0,
            replicas[i].entity,
        )
    &&& forall|i: int, j: int|
        0 <= i < j < replicas.len() ==> (#[trigger] replicas[i]).nid != (
        #[trigger] replicas[j]).nid
}

/// The survivors are among the replicas, and stay consistent.
pub proof fn survivors_consistent<H>(replicas: Seq<Replica<H>>, ids: Map<u64, u64>, w: hecs::World)
    requires
        consistent(replicas, ids),
    ensures
        consistent(survivors(replicas, w), ids),
        forall|i: int|
            0 <= i < survivors(replicas, w).len() ==> replicas.contains(
                #[trigger] survivors(replicas, w)[i],
            ),
        survivors(replicas, w).len() <= replicas.len(),
    decreases replicas.len(),
{
    if replicas.len() > 0 {
        let rest = replicas.drop_last();
        let last = replicas.last();
        survivors_consistent(rest, ids, w);
        let kept = survivors(rest, w);
        assert forall|i: int| 0 <= i < kept.len() implies replicas.contains(#[trigger] kept[i])
            && kept[i].nid != last.nid by {
            assert(rest.contains(kept[i]));
            let j = choose|j: int| 0 <= j < rest.len() && rest[j] == kept[i];
            assert(replicas[j] == kept[i]);
            assert(replicas[j].nid != replicas[replicas.len() - 1].nid);
        }
        assert(replicas[replicas.len() - 1] == last);
        assert(replicas.contains(last));
    }
}

/// The survivors are those that are live.
pub proof fn survivors_are_live<H>(replicas: Seq<Replica<H>>, w: hecs::World, replica: Replica<H>)
    ensures
        survivors(replicas, w).contains(replica) <==> replicas.contains(replica)
            && live(w, replica),
    decreases replicas.len(),
{
    if replicas.len() > 0 {
        let rest = replicas.drop_last();
        let last = replicas.last();
        survivors_are_live(rest, w, replica);
        assert(replicas =~= rest.push(last));
        crate::keys::push_contains(rest, last, replica);
        crate::keys::push_contains(survivors(rest, w), last, replica);
    }
}

/// What is sent of one entity: its id and how each descriptor's state has changed.
pub struct EntityUpdate {
    pub nid: u64,
    pub tracks: Seq<TrackReplicate<Seq<u8>>>,
}

impl EntityUpdate {
    /// Whether there is anything to send.
    pub open spec fn changed(self) -> bool {
        exists|i: int| 0 <= i < self.tracks.len() && self.tracks[i] !is Unmodified
    }

    /// The bytes that are sent: the id, the mask, and the new states one after the other.
    pub open spec fn bytes(self) -> Seq<u8> {
        codec::varint(self.nid) + codec::varint(
            mask::mask_of(server::kinds(self.tracks)) as u64,
        ) + states(self.tracks)
    }
}

/// The new states that `tracks` holds, one after the other.
pub open spec fn states(tracks: Seq<TrackReplicate<Seq<u8>>>) -> Seq<u8>
    decreases tracks.len(),
{
    if tracks.len() == 0 {
        Seq::empty()
    } else {
        match tracks.last() {
            TrackReplicate::Modified(pack) => states(tracks.drop_last()) + pack,
            _ => states(tracks.drop_last()),
        }
    }
}

/// The bytes of `updates`, one after the other.
pub open spec fn updates_bytes(updates: Seq<EntityUpdate>) -> Seq<u8>
    decreases updates.len(),
{
    if updates.len() == 0 {
        Seq::empty()
    } else {
        updates_bytes(updates.drop_last()) + updates.last().bytes()
    }
}

/// The bytes of `ids`, one after the other.
pub open spec fn ids_bytes(ids: Seq<NetId>) -> Seq<u8>
    decreases ids.len(),
{
    if ids.len() == 0 {
        Seq::empty()
    } else {
        ids_bytes(ids.drop_last()) + codec::varint(ids.last().0)
    }
}

/// How the entity of `replica` in `w` differs from what one knows of it who has seen all that was
/// sent up to `back` points before the newest.
pub open spec fn update_of<R: Replicator>(
    replica: Replica<R::Histories>,
    back: u64,
    w: hecs::World,
) -> EntityUpdate {
    EntityUpdate {
        nid: replica.nid.0,
        tracks: R::tracks(replica.histories, compared(replica, back), w, replica.entity),
    }
}

/// What is sent of `replicas` to one who has seen their state `back` points before the newest:
/// the update of each that is replicated and has changed.
pub open spec fn updates<R: Replicator>(
    replicas: Seq<Replica<R::Histories>>,
    back: u64,
    w: hecs::World,
) -> Seq<EntityUpdate>
    decreases replicas.len(),
{
    if replicas.len() == 0 {
        Seq::empty()
    } else {
        let before = updates::<R>(replicas.drop_last(), back, w);
        let update = update_of::<R>(replicas.last(), back, w);
        if replicated(w, replicas.last()) && update.changed() {
            before.push(update)
        } else {
            before
        }
    }
}

/// The mask that notes `tracks`.
fn mask_bits(tracks: &Vec<TrackReplicate<Vec<u8>>>) -> (bits: u32)
    requires
        tracks@.len() <= mask::MASK_SLOTS,
    ensures
        bits == mask::mask_of(server::kinds(server::tracks_view(tracks@))),
{
    let ghost kinds = server::kinds(server::tracks_view(tracks@));
    let mut bits: u32 = mask::empty();
    assert(kinds.take(0) =~= Seq::empty());
    for i in 0..tracks.len()
        invariant
            tracks@.len() <= mask::MASK_SLOTS,
            kinds == server::kinds(server::tracks_view(tracks@)),
            bits == mask::mask_of(kinds.take(i as int)),
    {
        assert(kinds.take(i + 1).drop_last() =~= kinds.take(i as int));
        tracks[i].write_mask(i, &mut bits);
    }
    assert(kinds.take(tracks@.len() as int) =~= kinds);
    bits
}

/// Appends the new states that `tracks` holds to `out`.
fn append_states(tracks: &Vec<TrackReplicate<Vec<u8>>>, out: &mut Vec<u8>)
    ensures
        final(out)@ == old(out)@ + states(server::tracks_view(tracks@)),
{
    let ghost start = out@;
    let ghost views = server::tracks_view(tracks@);
    assert(views.take(0) =~= Seq::empty());
    for i in 0..tracks.len()
        invariant
            views == server::tracks_view(tracks@),
            out@ == start + states(views.take(i as int)),
    {
        assert(views.take(i + 1).drop_last() =~= views.take(i as int));
        if let TrackReplicate::Modified(pack) = &tracks[i] {
            out.extend_from_slice(pack.as_slice());
        }
    }
    assert(views.take(tracks@.len() as int) =~= views);
}

/// An update of a world, as it is sent to one client.
pub struct WorldReplicaPack {
    /// How many entities are updated.
    pub updated: usize,
    /// The ids of the entities that are gone.
    pub removed: Vec<NetId>,
    /// The updates and the removed ids, in bytes.
    pub body: Vec<u8>,
}

/// All entities that a server replicates.
pub struct Replicas<R: Replicator> {
    rows: Vec<Replica<R::Histories>>,
}

impl<R: Replicator> View for Replicas<R> {
    type V = Seq<Replica<R::Histories>>;

    closed spec fn view(&self) -> Seq<Replica<R::Histories>> {
        self.rows@
    }
}

impl<R: Replicator> Replicas<R> {
    /// None.
    pub fn new() -> (replicas: Self)
        ensures
            replicas@ == Seq::<Replica<R::Histories>>::empty(),
    {
        Replicas { rows: Vec::new() }
    }

    /// How many there are.
    pub fn len(&self) -> (len: usize)
        ensures
            len == self@.len(),
    {
        self.rows.len()
    }

    /// No two have the same id, `mapper` knows them all, and all its ids are of `id_gen`.
    pub open spec fn wf(self, mapper: EntityMapper, id_gen: IdGen) -> bool {
        &&& consistent(self@, mapper@)
        &&& mapper.issued_by(id_gen)
        &&& id_gen.wf()
    }

    /// Begins to replicate each entity that the server owns and does not replicate yet.
    pub fn init_entities(
        &mut self,
        world: &mut hecs::World,
        id_gen: &mut IdGen,
        mapper: &mut EntityMapper,
    )
        requires
            old(self).wf(*old(mapper), *old(id_gen)),
            old(id_gen).next() <= u64::MAX - world::MAX_ENTITIES,
            world::flushable(*old(world)),
        ensures
            world::flushable(*final(world)),
            final(self).wf(*final(mapper), *final(id_gen)),
            entities_added::<R>(
                old(self)@,
                *old(id_gen),
                old(mapper)@,
                *old(world),
                final(self)@,
                *final(id_gen),
                final(mapper)@,
                *final(world),
            ),
    {
        let fresh = world::unadopted_entities(world);
        let ghost w = *world;
        let ghost start = self@;
        let ghost first: u64 = id_gen.next();
        let ghost ids = mapper@;
        assert(self@.skip(start.len() as int) =~= Seq::empty());
        assert(fresh@.take(0) =~= Seq::empty());
        assert(handles(self@.skip(start.len() as int)) =~= Seq::empty());
        for i in 0..fresh.len()
            invariant
                fresh@.to_set().subset_of(world::entities(w)),
                fresh@.len() <= world::MAX_ENTITIES,
                first <= u64::MAX - world::MAX_ENTITIES,
                self.wf(*mapper, *id_gen),
                start.len() + i == self@.len(),
                self@.take(start.len() as int) == start,
                handles(self@.skip(start.len() as int)) == fresh@.take(i as int),
                forall|k: int|
                    0 <= k < i ==> is_new::<R>(
                        #[trigger] self@.skip(start.len() as int)[k],
                        self@.skip(start.len() as int)[k].entity,
                        (first + k) as u64,
                    ),
                id_gen.next() == first + i,
                mapper@ == map_ids(ids, self@.skip(start.len() as int)),
                world::server_ids(*world) == map_handles(
                    world::server_ids(w),
                    self@.skip(start.len() as int),
                ),
                world::flushable(*world),
                world::aged(w, *world),
                i == 0 ==> *world == w,
                i > 0 ==> world::flushed(w, *world),
                world::others(*world) == world::others(w),
                world::net_ids(*world) == world::net_ids(w),
                world::player_ids(*world) == world::player_ids(w),
                world::owned(*world) == world::owned(w),
        {
            let entity: u64 = fresh[i];
            assert(fresh@.to_set().contains(entity));
            let ghost before = self@;
            let ghost news = before.skip(start.len() as int);
            let ghost known = mapper@;
            let nid = mapper.new_nid(id_gen, entity);
            let ghost earlier = *world;
            let _ = world::insert_server_id(world, entity, nid.0);
            assert(i > 0 ==> world::population(earlier) =~= world::population(w));
            self.rows.push(
                Replica { entity, nid, histories: R::histories(), marks: History::new() },
            );
            proof {
                let last = self@.last();
                assert(self@.skip(start.len() as int) =~= news.push(last));
                assert(news.push(last).drop_last() =~= news);
                assert(handles(news.push(last)) =~= handles(news).push(entity));
                assert(fresh@.take(i + 1) =~= fresh@.take(i as int).push(entity));
                assert(self@.take(start.len() as int) =~= before.take(start.len() as int));
                assert forall|k: int| 0 <= k < self@.len() implies mapper@.contains_pair(
                    (#[trigger] self@[k]).nid.0,
                    self@[k].entity,
                ) by {
                    if k < before.len() {
                        assert(before[k] == self@[k]);
                        assert(known.contains_pair(before[k].nid.0, before[k].entity));
                    }
                }
                assert forall|a: int, b: int| 0 <= a < b < self@.len() implies (#[trigger]
                self@[a]).nid != (#[trigger] self@[b]).nid by {
                    assert(before[a] == self@[a]);
                    assert(known.contains_pair(before[a].nid.0, before[a].entity));
                    if b < before.len() {
                        assert(before[b] == self@[b]);
                    }
                }
            }
        }
        assert(fresh@.take(fresh@.len() as int) =~= fresh@);
    }

    /// Adds the current state of each live entity to its histories, and drops the others.
    pub fn update_history(&mut self, world: &mut hecs::World)
        ensures
            histories_updated::<R>(old(self)@, final(self)@, *old(world)),
            *final(world) == *old(world),
    {
        let mut rows: Vec<Replica<R::Histories>> = Vec::new();
        std::mem::swap(&mut rows, &mut self.rows);
        let ghost start = rows@;
        let ghost w = *world;
        assert(start.take(0) =~= Seq::empty());
        for row in it: rows.into_iter()
            invariant
                it.seq() == start,
                *world == w,
                self@.len() == survivors(start.take(it.index() as int), w).len(),
                forall|i: int|
                    0 <= i < self@.len() ==> recorded::<R>(
                        survivors(start.take(it.index() as int), w)[i],
                        #[trigger] self@[i],
                        w,
                    ),
                forall|i: int|
                    0 <= i < self@.len() ==> !world::dead_handles(w).contains(
                        (#[trigger] self@[i]).entity,
                    ),
        {
            let ghost n = it.index() as int;
            let ghost given = row;
            assert(start.take(n + 1).drop_last() =~= start.take(n));
            assert(start.take(n + 1).last() == given);
            let mut row = row;
            if world::server_id_of(world, row.entity) == Some(row.nid.0) {
                R::record(&mut row.histories, world, row.entity);
                let mark = if world::is_owned(world, row.entity) {
                    Some(())
                } else {
                    None
                };
                row.marks.add(mark);
                self.rows.push(row);
            }
        }
        assert(start.take(start.len() as int) =~= start);
    }

    /// The update of the world for one who has seen its state `back` points before the newest.
    pub fn pack(&self, world: &mut hecs::World, mapper: &EntityMapper, back: u64) -> (pack:
        WorldReplicaPack)
        requires
            R::count() <= mask::MASK_SLOTS,
        ensures
            packed::<R>(pack, self@, *mapper, back, *old(world)),
            *final(world) == *old(world),
    {
        let ghost w = *world;
        let mut body: Vec<u8> = Vec::new();
        let mut updated: usize = 0;
        assert(self@.take(0) =~= Seq::empty());
        for i in 0..self.rows.len()
            invariant
                R::count() <= mask::MASK_SLOTS,
                *world == w,
                updated == updates::<R>(self@.take(i as int), back, w).len(),
                updated <= i,
                body@ == updates_bytes(updates::<R>(self@.take(i as int), back, w)),
                forall|k: int|
                    0 <= k < i && live(w, #[trigger] self@[k]) ==> !world::dead_handles(
                        w,
                    ).contains(self@[k].entity),
        {
            let row = &self.rows[i];
            let ghost before = updates::<R>(self@.take(i as int), back, w);
            assert(self@.take(i + 1).drop_last() =~= self@.take(i as int));
            let live = world::server_id_of(world, row.entity) == Some(row.nid.0);
            if live && world::is_owned(world, row.entity) {
                let mut tracks: Vec<TrackReplicate<Vec<u8>>> = Vec::new();
                let point: u64 = match row.marks.fetch(back) {
                    Ok(Some(_)) => back,
                    _ => server::BEYOND,
                };
                assert(point == compared(*row, back));
                R::track(&row.histories, point, world, row.entity, &mut tracks);
                let ghost update = update_of::<R>(*row, back, w);
                proof {
                    R::one_track_each(row.histories, point, w, row.entity);
                    assert(server::tracks_view(tracks@) =~= update.tracks);
                    let kinds = server::kinds(update.tracks);
                    mask::mask_empty_iff_unmodified(kinds);
                    if update.changed() {
                        let k = choose|k: int|
                            0 <= k < update.tracks.len() && update.tracks[k] !is Unmodified;
                        assert(kinds[k] !is Unmodified);
                    } else {
                        assert forall|k: int| 0 <= k < kinds.len() implies kinds[k] is Unmodified by {
                            assert(update.tracks[k] is Unmodified);
                        }
                    }
                }
                let bits: u32 = mask_bits(&tracks);
                if !mask::test_none(&bits) {
                    codec::append(&mut body, row.nid.0);
                    codec::append(&mut body, bits as u64);
                    append_states(&tracks, &mut body);
                    updated = updated + 1;
                    assert(before.push(update).drop_last() =~= before);
                    assert(body@ =~= updates_bytes(before) + update.bytes());
                }
            }
        }
        assert(self@.take(self@.len() as int) =~= self@);
        let ghost all = body@;
        let removed = mapper.iter_removed(world);
        assert(removed@.take(0) =~= Seq::empty());
        for i in 0..removed.len()
            invariant
                body@ == all + ids_bytes(removed@.take(i as int)),
        {
            assert(removed@.take(i + 1).drop_last() =~= removed@.take(i as int));
            codec::append(&mut body, removed[i].0);
        }
        assert(removed@.take(removed@.len() as int) =~= removed@);
        WorldReplicaPack { updated, removed, body }
    }
}

} // verus!
