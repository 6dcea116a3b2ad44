//! What holds from one step of a server to the next: the laws of its entities and their ids.

use crate::nid::{EntityMapper, IdGen, NetId};
use crate::server::Replicator;
use crate::server::replicas::{self, Replica, WorldReplicaPack};
use crate::world;
use vstd::prelude::*;

verus! {

/// Every entity that was adopted is one of `replicas`.
pub open spec fn covers<H>(replicas: Seq<Replica<H>>, w: hecs::World) -> bool {
    forall|e: u64| #[trigger]
        world::server_ids(w).contains_key(e) ==> exists|i: int|
            0 <= i < replicas.len() && (#[trigger] replicas[i]).entity == e && replicas::live(
                w,
                replicas[i],
            )
}

/// A game that despawns entities, or takes their ids away, leaves no adopted entity uncovered.
pub proof fn covers_whatever_goes<H>(replicas: Seq<Replica<H>>, w0: hecs::World, w1: hecs::World)
    requires
        covers(replicas, w0),
        world::server_ids(w1).submap_of(world::server_ids(w0)),
    ensures
        covers(replicas, w1),
{
    assert forall|e: u64| #[trigger] world::server_ids(w1).contains_key(e) implies exists|i: int|
        0 <= i < replicas.len() && (#[trigger] replicas[i]).entity == e && replicas::live(
            w1,
            replicas[i],
        ) by {
        assert(world::server_ids(w0).contains_key(e));
        let i = choose|i: int|
            0 <= i < replicas.len() && (#[trigger] replicas[i]).entity == e && replicas::live(
                w0,
                replicas[i],
            );
        assert(replicas::live(w1, replicas[i]));
    }
}

/// What the entities are mapped to.
proof fn lemma_map_handles<H>(ids: Map<u64, u64>, news: Seq<Replica<H>>, e: u64)
    ensures
        replicas::map_handles(ids, news).contains_key(e) <==> ids.contains_key(e) || (exists|k: int|
            0 <= k < news.len() && (#[trigger] news[k]).entity == e),
        replicas::map_handles(ids, news).contains_key(e) ==> {
            ||| ids.contains_pair(e, replicas::map_handles(ids, news)[e])
            ||| exists|k: int|
                0 <= k < news.len() && (#[trigger] news[k]).entity == e && news[k].nid.0
                    == replicas::map_handles(ids, news)[e]
        },
    decreases news.len(),
{
    if news.len() > 0 {
        let rest = news.drop_last();
        lemma_map_handles(ids, rest, e);
        assert forall|k: int| 0 <= k < rest.len() implies rest[k] == #[trigger] news[k] by {
        }
        assert(news[news.len() - 1] == news.last());
        if news.last().entity != e && replicas::map_handles(ids, news).contains_key(e) {
            assert(replicas::map_handles(ids, rest).contains_key(e));
            if !ids.contains_pair(e, replicas::map_handles(ids, news)[e]) {
                let k = choose|k: int|
                    0 <= k < rest.len() && (#[trigger] rest[k]).entity == e && rest[k].nid.0
                        == replicas::map_handles(ids, rest)[e];
                assert(news[k] == rest[k]);
            }
        }
        if exists|k: int| 0 <= k < rest.len() && (#[trigger] rest[k]).entity == e {
            let k = choose|k: int| 0 <= k < rest.len() && (#[trigger] rest[k]).entity == e;
            assert(news[k] == rest[k]);
        }
        if exists|k: int| 0 <= k < news.len() && (#[trigger] news[k]).entity == e {
            let k = choose|k: int| 0 <= k < news.len() && (#[trigger] news[k]).entity == e;
            if k < rest.len() {
                assert(rest[k] == news[k]);
            }
        }
    }
}

/// To map the entities of `news` maps them and no other: every other entity is mapped to what it
/// was.
pub proof fn ids_stay<H>(ids: Map<u64, u64>, news: Seq<Replica<H>>, e: u64)
    ensures
        replicas::map_handles(ids, news).contains_key(e) <==> ids.contains_key(e) || (exists|k: int|
            0 <= k < news.len() && (#[trigger] news[k]).entity == e),
        replicas::map_handles(ids, news).contains_key(e) ==> {
            ||| ids.contains_pair(e, replicas::map_handles(ids, news)[e])
            ||| exists|k: int|
                0 <= k < news.len() && (#[trigger] news[k]).entity == e && news[k].nid.0
                    == replicas::map_handles(ids, news)[e]
        },
{
    lemma_map_handles(ids, news, e);
}

/// What the ids are mapped to.
proof fn lemma_map_ids<H>(ids: Map<u64, u64>, news: Seq<Replica<H>>, nid: u64)
    ensures
        replicas::map_ids(ids, news).contains_key(nid) <==> ids.contains_key(nid) || (exists|k: int|
            0 <= k < news.len() && (#[trigger] news[k]).nid.0 == nid),
    decreases news.len(),
{
    if news.len() > 0 {
        let rest = news.drop_last();
        lemma_map_ids(ids, rest, nid);
        assert(news[news.len() - 1] == news.last());
        if exists|k: int| 0 <= k < rest.len() && (#[trigger] rest[k]).nid.0 == nid {
            let k = choose|k: int| 0 <= k < rest.len() && (#[trigger] rest[k]).nid.0 == nid;
            assert(news[k] == rest[k]);
        }
        if exists|k: int| 0 <= k < news.len() && (#[trigger] news[k]).nid.0 == nid {
            let k = choose|k: int| 0 <= k < news.len() && (#[trigger] news[k]).nid.0 == nid;
            if k < rest.len() {
                assert(rest[k] == news[k]);
            }
        }
    }
}

/// Once the entities that the server owns were added, each has an id that is not zero and was
/// never handed out before, is known by it, and is one of the replicas.
pub proof fn owned_are_adopted<R: Replicator>(
    r0: Seq<Replica<R::Histories>>,
    g0: IdGen,
    m0: EntityMapper,
    w0: hecs::World,
    r1: Seq<Replica<R::Histories>>,
    g1: IdGen,
    m1: EntityMapper,
    w1: hecs::World,
    e: u64,
)
    requires
        replicas::entities_added::<R>(r0, g0, m0@, w0, r1, g1, m1@, w1),
        replicas::consistent(r1, m1@),
        g0.wf(),
        m0.issued_by(g0),
        world::owned(w0).contains(e),
    ensures
        world::server_ids(w1).contains_key(e),
        world::server_ids(w0).contains_key(e) ==> world::server_ids(w1)[e] == world::server_ids(
            w0,
        )[e],
        !world::server_ids(w0).contains_key(e) ==> {
            let nid = world::server_ids(w1)[e];
            &&& g0.next() <= nid < g1.next()
            &&& nid != 0
            &&& !m0@.contains_key(nid)
            &&& m1@.contains_pair(nid, e)
            &&& exists|i: int|
                r0.len() <= i < r1.len() && replicas::is_new::<R>(#[trigger] r1[i], e, nid)
        },
{
    let news = r1.skip(r0.len() as int);
    lemma_map_handles(world::server_ids(w0), news, e);
    if !world::server_ids(w0).contains_key(e) {
        assert(replicas::handles(news).to_set().contains(e));
        let j = choose|j: int| 0 <= j < news.len() && replicas::handles(news)[j] == e;
        assert(news[j].entity == e);
        let nid = world::server_ids(w1)[e];
        let k = choose|k: int|
            0 <= k < news.len() && (#[trigger] news[k]).entity == e && news[k].nid.0 == nid;
        assert(replicas::is_new::<R>(news[k], news[k].entity, (g0.next() + k) as u64));
        assert(r1[r0.len() + k] == news[k]);
        assert(g1.next() == g0.next() + news.len());
        assert(nid == g0.next() + k);
        if m0@.contains_key(nid) {
            assert(nid < g0.next());
        }
    } else if exists|k: int|
        0 <= k < news.len() && (#[trigger] news[k]).entity == e {
        let k = choose|k: int| 0 <= k < news.len() && (#[trigger] news[k]).entity == e;
        assert(replicas::handles(news)[k] == e);
        assert(replicas::handles(news).to_set().contains(e));
    }
}

/// To add the entities that the server owns a second time changes nothing.
pub proof fn adding_twice_adds_once<R: Replicator>(
    r0: Seq<Replica<R::Histories>>,
    g0: IdGen,
    m0: Map<u64, u64>,
    w0: hecs::World,
    r1: Seq<Replica<R::Histories>>,
    g1: IdGen,
    m1: Map<u64, u64>,
    w1: hecs::World,
    r2: Seq<Replica<R::Histories>>,
    g2: IdGen,
    m2: Map<u64, u64>,
    w2: hecs::World,
)
    requires
        replicas::entities_added::<R>(r0, g0, m0, w0, r1, g1, m1, w1),
        replicas::entities_added::<R>(r1, g1, m1, w1, r2, g2, m2, w2),
    ensures
        r2 == r1,
        g2.next() == g1.next(),
        m2 == m1,
        w2 == w1,
{
    let news = r1.skip(r0.len() as int);
    let more = r2.skip(r1.len() as int);
    assert forall|e: u64| world::owned(w1).contains(e) implies #[trigger] world::server_ids(
        w1,
    ).contains_key(e) by {
        lemma_map_handles(world::server_ids(w0), news, e);
        if !world::server_ids(w0).contains_key(e) {
            assert(replicas::handles(news).to_set().contains(e));
            let j = choose|j: int| 0 <= j < news.len() && replicas::handles(news)[j] == e;
            assert(news[j].entity == e);
        }
    }
    if more.len() > 0 {
        let e = more[0].entity;
        assert(replicas::handles(more)[0] == e);
        assert(replicas::handles(more).to_set().contains(e));
        assert(world::server_ids(w1).contains_key(e));
        assert(false);
    }
    assert(r2 =~= r1.take(r1.len() as int));
    assert(r2.take(r1.len() as int) =~= r2);
}

/// The entities were added, as `w0` has them, then their states were noted in `w1`, and the ids of
/// dead ones were forgotten: what a run of the server does with its replicas and its mapping.
pub open spec fn run_over<R: Replicator>(
    r0: Seq<Replica<R::Histories>>,
    g0: IdGen,
    m0: EntityMapper,
    w0: hecs::World,
    r1: Seq<Replica<R::Histories>>,
    g1: IdGen,
    m1: EntityMapper,
    w1: hecs::World,
    r2: Seq<Replica<R::Histories>>,
    m2: EntityMapper,
) -> bool {
    &&& replicas::entities_added::<R>(r0, g0, m0@, w0, r1, g1, m1@, w1)
    &&& replicas::consistent(r1, m1@)
    &&& replicas::histories_updated::<R>(r1, r2, w1)
    &&& m2@ == m1@.remove_keys(m1.removed(w1))
}

/// After a run the components, the mapping and the histories agree: every mapped entity is alive;
/// every entity that the server owns has an id by which it is mapped, and no two have the same;
/// each that has an id has histories, which grew by its state in that world. What is asked of the
/// replicas before the run holds again after.
pub proof fn run_leaves_all_in_step<R: Replicator>(
    r0: Seq<Replica<R::Histories>>,
    g0: IdGen,
    m0: EntityMapper,
    w0: hecs::World,
    r1: Seq<Replica<R::Histories>>,
    g1: IdGen,
    m1: EntityMapper,
    w1: hecs::World,
    r2: Seq<Replica<R::Histories>>,
    m2: EntityMapper,
)
    requires
        covers(r0, w0),
        run_over::<R>(r0, g0, m0, w0, r1, g1, m1, w1, r2, m2),
    ensures
        covers(r2, w1),
        forall|nid: u64| #[trigger]
            m2@.contains_key(nid) ==> !world::dead_handles(w1).contains(m2@[nid]),
        forall|e: u64| #[trigger]
            world::owned(w1).contains(e) ==> world::server_ids(w1).contains_key(e),
        forall|e: u64| #[trigger]
            world::server_ids(w1).contains_key(e) ==> {
                &&& m2@.contains_pair(world::server_ids(w1)[e], e)
                &&& exists|i: int, j: int|
                    {
                        &&& 0 <= i < r2.len()
                        &&& 0 <= j < r1.len()
                        &&& r2[i].entity == e
                        &&& #[trigger] replicas::recorded::<R>(r1[j], r2[i], w1)
                    }
            },
        forall|a: u64, b: u64| #[trigger]
            world::server_ids(w1).contains_key(a) && #[trigger] world::server_ids(
                w1,
            ).contains_key(b) && a != b ==> world::server_ids(w1)[a] != world::server_ids(w1)[b],
{
    let news = r1.skip(r0.len() as int);
    let kept = replicas::survivors(r1, w1);
    assert forall|e: u64| #[trigger] world::server_ids(w1).contains_key(e) implies exists|i: int|
        0 <= i < r1.len() && (#[trigger] r1[i]).entity == e && replicas::live(w1, r1[i]) by {
        lemma_map_handles(world::server_ids(w0), news, e);
        let nid = world::server_ids(w1)[e];
        if world::server_ids(w0).contains_pair(e, nid) {
            assert(world::server_ids(w0).contains_key(e));
            let i = choose|i: int|
                0 <= i < r0.len() && (#[trigger] r0[i]).entity == e && replicas::live(w0, r0[i]);
            assert(r1.take(r0.len() as int)[i] == r0[i]);
            assert(r1[i] == r0[i]);
        } else {
            let k = choose|k: int|
                0 <= k < news.len() && (#[trigger] news[k]).entity == e && news[k].nid.0 == nid;
            assert(r1[r0.len() + k] == news[k]);
        }
    }
    assert forall|e: u64| #[trigger] world::server_ids(w1).contains_key(e) implies {
        &&& m2@.contains_pair(world::server_ids(w1)[e], e)
        &&& exists|i: int, j: int|
            {
                &&& 0 <= i < r2.len()
                &&& 0 <= j < r1.len()
                &&& r2[i].entity == e
                &&& #[trigger] replicas::recorded::<R>(r1[j], r2[i], w1)
            }
        &&& exists|i: int|
            0 <= i < r2.len() && (#[trigger] r2[i]).entity == e && replicas::live(w1, r2[i])
    } by {
        let j = choose|j: int|
            0 <= j < r1.len() && (#[trigger] r1[j]).entity == e && replicas::live(w1, r1[j]);
        assert(r1.contains(r1[j]));
        replicas::survivors_are_live(r1, w1, r1[j]);
        let i = choose|i: int| 0 <= i < kept.len() && kept[i] == r1[j];
        assert(replicas::recorded::<R>(kept[i], r2[i], w1));
        assert(replicas::recorded::<R>(r1[j], r2[i], w1));
        assert(m1@.contains_pair(r1[j].nid.0, e));
        assert(!world::dead_handles(w1).contains(r2[i].entity));
        assert(replicas::live(w1, r2[i]));
    }
    assert forall|e: u64| #[trigger] world::owned(w1).contains(e) implies world::server_ids(
        w1,
    ).contains_key(e) by {
        lemma_map_handles(world::server_ids(w0), news, e);
        if !world::server_ids(w0).contains_key(e) {
            assert(replicas::handles(news).to_set().contains(e));
            let j = choose|j: int| 0 <= j < news.len() && replicas::handles(news)[j] == e;
            assert(news[j].entity == e);
        }
    }
}

/// `nid` was handed out and is mapped no more.
pub open spec fn retired(mapper: EntityMapper, id_gen: IdGen, nid: u64) -> bool {
    0 < nid < id_gen.next() && !mapper@.contains_key(nid)
}

/// The id of an entity that died is told exactly once in each update of that run. Then it is
/// retired.
pub proof fn removed_are_told_once<R: Replicator>(
    pack: WorldReplicaPack,
    replicas: Seq<Replica<R::Histories>>,
    back: u64,
    before: EntityMapper,
    after: EntityMapper,
    id_gen: IdGen,
    w: hecs::World,
    nid: u64,
)
    requires
        replicas::packed::<R>(pack, replicas, before, back, w),
        before.issued_by(id_gen),
        after@ == before@.remove_keys(before.removed(w)),
        before@.contains_key(nid),
        world::dead_handles(w).contains(before@[nid]),
    ensures
        exists|k: int| 0 <= k < pack.removed@.len() && #[trigger] pack.removed@[k] == NetId(nid),
        forall|i: int, j: int|
            0 <= i < pack.removed@.len() && 0 <= j < pack.removed@.len()
                && #[trigger] pack.removed@[i] == NetId(nid) && #[trigger] pack.removed@[j]
                == NetId(nid) ==> i == j,
        retired(after, id_gen, nid),
{
    assert(before.removed(w).contains(NetId(nid).0));
    assert(pack.removed@.contains(NetId(nid)));
}

/// A retired id stays retired: no entity and no player gets it, whatever the server does, and no
/// update tells of it again.
pub proof fn retired_stay_retired<R: Replicator>(
    r0: Seq<Replica<R::Histories>>,
    g0: IdGen,
    m0: EntityMapper,
    w0: hecs::World,
    r1: Seq<Replica<R::Histories>>,
    g1: IdGen,
    m1: EntityMapper,
    w1: hecs::World,
    pack: WorldReplicaPack,
    back: u64,
    w: hecs::World,
    nid: u64,
)
    requires
        retired(m0, g0, nid),
    ensures
        replicas::entities_added::<R>(r0, g0, m0@, w0, r1, g1, m1@, w1) ==> {
            &&& retired(m1, g1, nid)
            &&& forall|i: int| r0.len() <= i < r1.len() ==> (#[trigger] r1[i]).nid.0 != nid
        },
        m1@ == m0@.remove_keys(m0.removed(w0)) && g1.next() >= g0.next() ==> retired(m1, g1, nid),
        g1.next() == g0.next() + 1 && m1 == m0 ==> retired(m1, g1, nid) && g0.next() != nid,
        replicas::packed::<R>(pack, r0, m0, back, w) ==> !pack.removed@.contains(NetId(nid)),
{
    if replicas::entities_added::<R>(r0, g0, m0@, w0, r1, g1, m1@, w1) {
        let news = r1.skip(r0.len() as int);
        assert forall|k: int| 0 <= k < news.len() implies (#[trigger] news[k]).nid.0 != nid by {
            assert(replicas::is_new::<R>(news[k], news[k].entity, (g0.next() + k) as u64));
            assert(g0.next() + k < g1.next());
        }
        assert forall|i: int| r0.len() <= i < r1.len() implies (#[trigger] r1[i]).nid.0 != nid by {
            assert(news[i - r0.len()] == r1[i]);
        }
        lemma_map_ids(m0@, news, nid);
    }
    if replicas::packed::<R>(pack, r0, m0, back, w) {
        assert(!m0.removed(w).contains(NetId(nid).0));
    }
}

} // verus!
