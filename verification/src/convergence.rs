//! What a client sees of a server's world: the laws of delta compression.

use crate::client;
use crate::client::replicator::{self, ReplicateError, Replicator as ClientReplicator};
use crate::client_server::PlayerId;
use crate::codec;
use crate::mask;
use crate::nid::{self, MapperError, NetId};
use crate::replication;
use crate::server;
use crate::server::{Missing, Replicator as ServerReplicator, TrackReplicate};
use crate::server::replicas::{self, EntityUpdate, Replica};
use crate::world;
use vstd::prelude::*;

verus! {

/// Exactly the entities that are replicated and have changed since are sent, each as it has
/// changed.
pub proof fn only_changes_are_sent<R: ServerReplicator>(
    replicas: Seq<Replica<R::Histories>>,
    back: u64,
    w: hecs::World,
    update: EntityUpdate,
)
    ensures
        replicas::updates::<R>(replicas, back, w).contains(update) <==> exists|i: int|
            0 <= i < replicas.len() && replicas::replicated(w, #[trigger] replicas[i]) && update
                == replicas::update_of::<R>(replicas[i], back, w) && update.changed(),
    decreases replicas.len(),
{
    if replicas.len() > 0 {
        let rest = replicas.drop_last();
        let last = replicas.last();
        let before = replicas::updates::<R>(rest, back, w);
        let own = replicas::update_of::<R>(last, back, w);
        only_changes_are_sent::<R>(rest, back, w, update);
        crate::keys::push_contains(before, own, update);
        assert(replicas[replicas.len() - 1] == last);
        assert forall|i: int| 0 <= i < rest.len() implies rest[i] == #[trigger] replicas[i] by {
        }
        if before.contains(update) {
            let i = choose|i: int|
                0 <= i < rest.len() && replicas::replicated(w, #[trigger] rest[i]) && update
                    == replicas::update_of::<R>(rest[i], back, w) && update.changed();
            assert(replicas[i] == rest[i]);
        }
        if exists|i: int|
            0 <= i < replicas.len() && replicas::replicated(w, #[trigger] replicas[i]) && update
                == replicas::update_of::<R>(replicas[i], back, w) && update.changed() {
            let i = choose|i: int|
                0 <= i < replicas.len() && replicas::replicated(w, #[trigger] replicas[i]) && update
                    == replicas::update_of::<R>(replicas[i], back, w) && update.changed();
            if i < rest.len() {
                assert(rest[i] == replicas[i]);
            }
        }
    }
}

/// A history that holds one point for each step since `first`, up to the step before `step`:
/// `point` tells which.
pub open spec fn one_per_step<T>(
    history: Seq<Option<T>>,
    point: spec_fn(int) -> Option<T>,
    first: int,
    step: int,
) -> bool {
    &&& first <= step
    &&& history.len() == step - first
    &&& forall|i: int| 0 <= i < history.len() ==> #[trigger] history[i] == point(step - 1 - i)
}

/// A history that is added to at every step keeps one point for each step.
pub proof fn history_keeps_pace<T>(
    history: Seq<Option<T>>,
    point: spec_fn(int) -> Option<T>,
    first: int,
    step: int,
)
    requires
        one_per_step(history, point, first, step),
    ensures
        one_per_step(seq![point(step)] + history, point, first, step + 1),
        one_per_step(Seq::<Option<T>>::empty(), point, step, step),
{
}

/// The server compares with the very state that the client has seen last: for a client that
/// acknowledged the update of the step `seen`, the state `back` points before the newest is that of
/// the step `seen`. Where the entity is younger than that, or the client has seen no update yet,
/// there is no state to compare with, and the entity is sent whole.
pub proof fn acknowledged_state_is_compared<T>(
    history: Seq<Option<T>>,
    point: spec_fn(int) -> Option<T>,
    first: int,
    step: u64,
    next_update_step: u64,
)
    requires
        one_per_step(history, point, first, step as int),
        0 <= first,
        next_update_step <= step,
    ensures
        server::past(history, (step - next_update_step) as u64) == (if first < next_update_step {
            Ok::<Option<T>, Missing>(point(next_update_step - 1))
        } else {
            Err(Missing)
        }),
{
}

/// A descriptor of a server and the descriptor of a client for the same components.
pub trait Pair {
    /// The server's descriptor.
    type S: server::Descriptor;

    /// The client's descriptor.
    type C: client::Descriptor;

    /// The state of `entity` in the client's world `w`.
    spec fn seen(w: hecs::World, entity: u64) -> Option<<Self::S as server::Descriptor>::History>;
}

/// The state of `entity` in the server's world `w`.
pub open spec fn state<P: Pair>(w: hecs::World, entity: u64) -> Option<
    <P::S as server::Descriptor>::History,
> {
    <P::S as server::Descriptor>::state(w, entity)
}

/// How the state of `entity` in the server's world `w` differs from the one `back` points before
/// the newest of `history`.
pub open spec fn track<P: Pair>(
    history: Seq<Option<<P::S as server::Descriptor>::History>>,
    back: u64,
    w: hecs::World,
    entity: u64,
) -> TrackReplicate<Seq<u8>> {
    server::track::<P::S>(history, back, w, entity)
}

/// The state that the client makes of `pack`.
pub open spec fn unpacked<P: Pair>(pack: Seq<u8>) -> <P::C as client::Descriptor>::Pack {
    <P::C as client::Descriptor>::decoded(pack)->Some_0.0
}

/// Both descriptors agree on the state of `entity` in the server's world `w`: nothing is sent only
/// where nothing has changed, and what is sent makes the client see the state.
pub open spec fn faithful<P: Pair>(w: hecs::World, entity: u64) -> bool {
    &&& forall|history: Option<<P::S as server::Descriptor>::History>|
        state::<P>(w, entity) is Some ==> match #[trigger] <P::S as server::Descriptor>::replica(
            w,
            entity,
            history,
        ) {
            server::Replicate::Unmodified => history == state::<P>(w, entity),
            server::Replicate::Modified(pack) => {
                &&& client::slot_accepts::<P::C>(TrackReplicate::Modified(pack))
                &&& forall|w0: hecs::World, w1: hecs::World, e: u64| #[trigger]
                    <P::C as client::Descriptor>::inserted(w0, w1, e, unpacked::<P>(pack))
                        ==> P::seen(w1, e) == state::<P>(w, entity)
                &&& forall|w0: hecs::World, w1: hecs::World, e: u64| #[trigger]
                    <P::C as client::Descriptor>::modified(w0, w1, e, unpacked::<P>(pack))
                        ==> P::seen(w1, e) == state::<P>(w, entity)
            },
        }
    &&& forall|w: hecs::World, e: u64| #[trigger]
        <P::C as client::Descriptor>::has(w, e) <==> P::seen(w, e) is Some
    &&& forall|w0: hecs::World, w1: hecs::World, e: u64| #[trigger]
        <P::C as client::Descriptor>::removed(w0, w1, e) ==> P::seen(w1, e) is None
}

/// From `w0` to `w1` nothing but further components of `e` changed.
pub open spec fn touched(w0: hecs::World, w1: hecs::World, e: u64) -> bool {
    &&& world::aged(w0, w1)
    &&& world::same_population(w0, w1)
    &&& world::net_ids(w1) == world::net_ids(w0)
    &&& world::player_ids(w1) == world::player_ids(w0)
    &&& forall|other: u64| other != e ==> #[trigger] world::alike(w0, w1, other)
}

/// What the client sees of an entity depends on the entity's further components alone, and its
/// descriptor changes no more than those.
pub open spec fn local<P: Pair>() -> bool {
    &&& forall|w0: hecs::World, w1: hecs::World, e: u64| #[trigger]
        world::alike(w0, w1, e) ==> P::seen(w1, e) == P::seen(w0, e)
    &&& forall|w0: hecs::World, w1: hecs::World, e: u64, track: TrackReplicate<Seq<u8>>| #[trigger]
        client::slot_followed::<P::C>(w0, w1, e, track) ==> touched(w0, w1, e)
}

/// Delta compression loses nothing: a client that sees the state which the server compares with
/// sees the current state after it did what the server sent. One of whom the server knows no past
/// state sees it whatever it saw before. Where nothing is sent, the client sees it already.
pub proof fn slot_converges<P: Pair>(
    history: Seq<Option<<P::S as server::Descriptor>::History>>,
    back: u64,
    w: hecs::World,
    entity: u64,
    w0: hecs::World,
    w1: hecs::World,
    e: u64,
)
    requires
        faithful::<P>(w, entity),
        server::past(history, back) matches Ok(past) ==> P::seen(w0, e) == past,
    ensures
        client::slot_accepts::<P::C>(track::<P>(history, back, w, entity)),
        client::slot_followed::<P::C>(w0, w1, e, track::<P>(history, back, w, entity)) ==> P::seen(
            w1,
            e,
        ) == state::<P>(w, entity),
        track::<P>(history, back, w, entity) is Unmodified ==> {
            &&& server::past(history, back) is Ok
            &&& P::seen(w0, e) == state::<P>(w, entity)
        },
{
    let before: Option<<P::S as server::Descriptor>::History> = match server::past(history, back) {
        Ok(past) => past,
        Err(_) => None,
    };
    let sent = <P::S as server::Descriptor>::replica(w, entity, before);
    let has = <P::C as client::Descriptor>::has(w0, e);
    if client::slot_followed::<P::C>(w0, w1, e, track::<P>(history, back, w, entity)) {
        if state::<P>(w, entity) is Some {
            if let server::Replicate::Modified(pack) = sent {
                assert(<P::C as client::Descriptor>::inserted(w0, w1, e, unpacked::<P>(pack))
                    || <P::C as client::Descriptor>::modified(w0, w1, e, unpacked::<P>(pack)));
            }
        }
    }
}

/// A row of pairs: `()`, or a row and one more pair. It is a server's row of descriptors and a
/// client's for the same components.
pub trait Mirror {
    /// The server's row.
    type Server: ServerReplicator;

    /// The client's row.
    type Client: ClientReplicator;

    /// Each pair agrees on the state of `entity` in the server's world `w`.
    spec fn valid(w: hecs::World, entity: u64) -> bool;

    /// The server knows a past state `back` points before the newest.
    spec fn known(
        histories: <Self::Server as ServerReplicator>::Histories,
        back: u64,
    ) -> bool;

    /// The client sees of its entity `e` each state that the server compares with.
    spec fn primed(
        histories: <Self::Server as ServerReplicator>::Histories,
        back: u64,
        wc: hecs::World,
        e: u64,
    ) -> bool;

    /// The client sees of its entity `e` the whole state of `entity` in the server's world `w`.
    spec fn shown(w: hecs::World, entity: u64, wc: hecs::World, e: u64) -> bool;

    /// From `w0` to `w1` nothing changed that the client sees of its entity `e`.
    spec fn same(w0: hecs::World, w1: hecs::World, e: u64) -> bool;

    /// What one pair does with an entity does not change what the others see of it.
    spec fn independent() -> bool;

    /// What each pair sees of an entity, and what it changes, lies within the entity's own further
    /// components.
    spec fn tidy() -> bool;

    /// What a tidy row does with an entity touches no other, and what it sees of an entity depends
    /// on the entity's further components alone.
    proof fn tidy_is_local(
        w0: hecs::World,
        w1: hecs::World,
        e: u64,
        tracks: Seq<TrackReplicate<Seq<u8>>>,
    )
        requires
            Self::tidy(),
        ensures
            world::alike(w0, w1, e) ==> Self::same(w0, w1, e),
            Self::Client::followed(w0, w1, e, tracks) ==> touched(w0, w1, e),
    ;

    /// A row of pairs converges as each of its pairs does.
    proof fn row_converges(
        histories: <Self::Server as ServerReplicator>::Histories,
        back: u64,
        w: hecs::World,
        entity: u64,
        w0: hecs::World,
        w1: hecs::World,
        e: u64,
    )
        requires
            Self::independent(),
            Self::valid(w, entity),
            Self::primed(histories, back, w0, e),
        ensures
            Self::Client::accepts(Self::Server::tracks(histories, back, w, entity)),
            Self::Client::followed(
                w0,
                w1,
                e,
                Self::Server::tracks(histories, back, w, entity),
            ) ==> Self::shown(w, entity, w1, e),
            (forall|i: int|
                0 <= i < Self::Server::tracks(histories, back, w, entity).len() ==> (
                #[trigger] Self::Server::tracks(histories, back, w, entity)[i]) is Unmodified)
                ==> Self::shown(w, entity, w0, e),
            (forall|i: int|
                0 <= i < Self::Server::tracks(histories, back, w, entity).len() ==> (
                #[trigger] Self::Server::tracks(histories, back, w, entity)[i]) is Unmodified)
                && Self::Server::count() > 0 ==> Self::known(histories, back),
    ;

    /// What the client sees depends on nothing else.
    proof fn same_is_same(
        histories: <Self::Server as ServerReplicator>::Histories,
        back: u64,
        w: hecs::World,
        entity: u64,
        w0: hecs::World,
        w1: hecs::World,
        e: u64,
    )
        ensures
            !Self::known(histories, back) ==> Self::primed(histories, back, w0, e),
            Self::same(w0, w1, e) && Self::primed(histories, back, w0, e) ==> Self::primed(
                histories,
                back,
                w1,
                e,
            ),
            Self::same(w0, w1, e) && Self::shown(w, entity, w0, e) ==> Self::shown(
                w,
                entity,
                w1,
                e,
            ),
    ;

    /// Nothing is known of what lies beyond every history.
    proof fn beyond_is_unknown(histories: <Self::Server as ServerReplicator>::Histories)
        ensures
            !Self::known(histories, server::BEYOND),
    ;

    /// The histories of `entity` hold its state at each step since `first`, up to the step before
    /// `step`. The server's world was `worlds` of the step.
    spec fn since(
        histories: <Self::Server as ServerReplicator>::Histories,
        worlds: spec_fn(int) -> hecs::World,
        entity: u64,
        first: int,
        step: int,
    ) -> bool;

    /// Histories that are added to at every step hold the state of each step.
    proof fn histories_keep_pace(
        before: <Self::Server as ServerReplicator>::Histories,
        after: <Self::Server as ServerReplicator>::Histories,
        worlds: spec_fn(int) -> hecs::World,
        entity: u64,
        first: int,
        step: int,
    )
        ensures
            Self::Server::fresh(before) ==> Self::since(before, worlds, entity, step, step),
            Self::since(before, worlds, entity, first, step) && Self::Server::recorded(
                before,
                after,
                worlds(step),
                entity,
            ) ==> Self::since(after, worlds, entity, first, step + 1),
    ;

    /// A client that has seen the server's world of a step, and acknowledges it, sees what the
    /// server compares with at any later step. Of an entity that is younger than what the client
    /// acknowledges the server knows no past state.
    proof fn acknowledged_is_primed(
        histories: <Self::Server as ServerReplicator>::Histories,
        worlds: spec_fn(int) -> hecs::World,
        entity: u64,
        first: int,
        step: u64,
        next_update_step: u64,
        wc: hecs::World,
        e: u64,
    )
        requires
            Self::since(histories, worlds, entity, first, step as int),
            0 <= first,
            next_update_step <= step,
        ensures
            first < next_update_step && Self::shown(worlds(next_update_step - 1), entity, wc, e)
                ==> Self::primed(histories, (step - next_update_step) as u64, wc, e),
            first >= next_update_step ==> !Self::known(
                histories,
                (step - next_update_step) as u64,
            ),
    ;

    /// Where nothing changed twice, nothing changed.
    proof fn same_composes(w0: hecs::World, w1: hecs::World, w2: hecs::World, e: u64)
        ensures
            Self::same(w0, w0, e),
            Self::same(w0, w1, e) && Self::same(w1, w2, e) ==> Self::same(w0, w2, e),
    ;
}

impl Mirror for () {
    type Server = ();

    type Client = ();

    open spec fn valid(w: hecs::World, entity: u64) -> bool {
        true
    }

    open spec fn known(histories: (), back: u64) -> bool {
        false
    }

    open spec fn primed(histories: (), back: u64, wc: hecs::World, e: u64) -> bool {
        true
    }

    open spec fn shown(w: hecs::World, entity: u64, wc: hecs::World, e: u64) -> bool {
        true
    }

    open spec fn same(w0: hecs::World, w1: hecs::World, e: u64) -> bool {
        true
    }

    open spec fn independent() -> bool {
        true
    }

    open spec fn tidy() -> bool {
        true
    }

    proof fn tidy_is_local(
        w0: hecs::World,
        w1: hecs::World,
        e: u64,
        tracks: Seq<TrackReplicate<Seq<u8>>>,
    ) {
    }

    proof fn row_converges(
        histories: (),
        back: u64,
        w: hecs::World,
        entity: u64,
        w0: hecs::World,
        w1: hecs::World,
        e: u64,
    ) {
    }

    proof fn same_is_same(
        histories: (),
        back: u64,
        w: hecs::World,
        entity: u64,
        w0: hecs::World,
        w1: hecs::World,
        e: u64,
    ) {
    }

    proof fn beyond_is_unknown(histories: ()) {
    }

    open spec fn since(
        histories: (),
        worlds: spec_fn(int) -> hecs::World,
        entity: u64,
        first: int,
        step: int,
    ) -> bool {
        first <= step
    }

    proof fn histories_keep_pace(
        before: (),
        after: (),
        worlds: spec_fn(int) -> hecs::World,
        entity: u64,
        first: int,
        step: int,
    ) {
    }

    proof fn acknowledged_is_primed(
        histories: (),
        worlds: spec_fn(int) -> hecs::World,
        entity: u64,
        first: int,
        step: u64,
        next_update_step: u64,
        wc: hecs::World,
        e: u64,
    ) {
    }

    proof fn same_composes(w0: hecs::World, w1: hecs::World, w2: hecs::World, e: u64) {
    }
}

impl<M: Mirror, P: Pair> Mirror for (M, P) {
    type Server = (M::Server, P::S);

    type Client = (M::Client, P::C);

    open spec fn valid(w: hecs::World, entity: u64) -> bool {
        M::valid(w, entity) && faithful::<P>(w, entity)
    }

    open spec fn known(
        histories: <Self::Server as ServerReplicator>::Histories,
        back: u64,
    ) -> bool {
        M::known(histories.0, back) || server::past(histories.1@, back) is Ok
    }

    open spec fn primed(
        histories: <Self::Server as ServerReplicator>::Histories,
        back: u64,
        wc: hecs::World,
        e: u64,
    ) -> bool {
        &&& M::primed(histories.0, back, wc, e)
        &&& server::past(histories.1@, back) matches Ok(past) ==> P::seen(wc, e) == past
    }

    open spec fn shown(w: hecs::World, entity: u64, wc: hecs::World, e: u64) -> bool {
        M::shown(w, entity, wc, e) && P::seen(wc, e) == state::<P>(w, entity)
    }

    open spec fn same(w0: hecs::World, w1: hecs::World, e: u64) -> bool {
        M::same(w0, w1, e) && P::seen(w1, e) == P::seen(w0, e)
    }

    open spec fn independent() -> bool {
        &&& M::independent()
        &&& forall|
            w0: hecs::World,
            w1: hecs::World,
            e: u64,
            tracks: Seq<TrackReplicate<Seq<u8>>>,
        | #[trigger]
            M::Client::followed(w0, w1, e, tracks) ==> P::seen(w1, e) == P::seen(w0, e)
        &&& forall|w0: hecs::World, w1: hecs::World, e: u64, track: TrackReplicate<Seq<u8>>|
         #[trigger]
            client::slot_followed::<P::C>(w0, w1, e, track) ==> M::same(w0, w1, e)
    }

    open spec fn tidy() -> bool {
        M::tidy() && local::<P>()
    }

    proof fn tidy_is_local(
        w0: hecs::World,
        w1: hecs::World,
        e: u64,
        tracks: Seq<TrackReplicate<Seq<u8>>>,
    ) {
        M::tidy_is_local(w0, w1, e, tracks);
        if <Self::Client as ClientReplicator>::followed(w0, w1, e, tracks) {
            let between = choose|between: hecs::World| #[trigger]
                M::Client::followed(w0, between, e, tracks.drop_last())
                    && client::slot_followed::<P::C>(between, w1, e, tracks.last());
            M::tidy_is_local(w0, between, e, tracks.drop_last());
            assert(touched(between, w1, e));
            assert forall|other: u64| other != e implies #[trigger] world::alike(
                w0,
                w1,
                other,
            ) by {
                assert(world::alike(w0, between, other));
                assert(world::alike(between, w1, other));
            }
        }
    }

    proof fn row_converges(
        histories: <Self::Server as ServerReplicator>::Histories,
        back: u64,
        w: hecs::World,
        entity: u64,
        w0: hecs::World,
        w1: hecs::World,
        e: u64,
    ) {
        let firsts = M::Server::tracks(histories.0, back, w, entity);
        let last = track::<P>(histories.1@, back, w, entity);
        let tracks = <Self::Server as ServerReplicator>::tracks(histories, back, w, entity);
        assert(tracks =~= firsts.push(last));
        assert(tracks.drop_last() =~= firsts);
        M::row_converges(histories.0, back, w, entity, w0, w1, e);
        slot_converges::<P>(histories.1@, back, w, entity, w0, w1, e);
        if <Self::Client as ClientReplicator>::followed(w0, w1, e, tracks) {
            let between = choose|between: hecs::World| #[trigger]
                M::Client::followed(w0, between, e, firsts) && client::slot_followed::<P::C>(
                    between,
                    w1,
                    e,
                    last,
                );
            M::row_converges(histories.0, back, w, entity, w0, between, e);
            M::same_is_same(histories.0, back, w, entity, between, w1, e);
            slot_converges::<P>(histories.1@, back, w, entity, between, w1, e);
        }
        if forall|i: int| 0 <= i < tracks.len() ==> (#[trigger] tracks[i]) is Unmodified {
            assert(tracks[tracks.len() - 1] is Unmodified);
            assert forall|i: int| 0 <= i < firsts.len() implies (#[trigger] firsts[i]) is
                Unmodified by {
                assert(tracks[i] == firsts[i]);
            }
        }
    }

    proof fn same_is_same(
        histories: <Self::Server as ServerReplicator>::Histories,
        back: u64,
        w: hecs::World,
        entity: u64,
        w0: hecs::World,
        w1: hecs::World,
        e: u64,
    ) {
        M::same_is_same(histories.0, back, w, entity, w0, w1, e);
    }

    proof fn beyond_is_unknown(histories: <Self::Server as ServerReplicator>::Histories) {
        M::beyond_is_unknown(histories.0);
    }

    open spec fn since(
        histories: <Self::Server as ServerReplicator>::Histories,
        worlds: spec_fn(int) -> hecs::World,
        entity: u64,
        first: int,
        step: int,
    ) -> bool {
        &&& M::since(histories.0, worlds, entity, first, step)
        &&& one_per_step(
            histories.1@,
            |step: int| state::<P>(worlds(step), entity),
            first,
            step,
        )
    }

    proof fn histories_keep_pace(
        before: <Self::Server as ServerReplicator>::Histories,
        after: <Self::Server as ServerReplicator>::Histories,
        worlds: spec_fn(int) -> hecs::World,
        entity: u64,
        first: int,
        step: int,
    ) {
        M::histories_keep_pace(before.0, after.0, worlds, entity, first, step);
        let point = |step: int| state::<P>(worlds(step), entity);
        if one_per_step(before.1@, point, first, step) {
            history_keeps_pace(before.1@, point, first, step);
        }
    }

    proof fn acknowledged_is_primed(
        histories: <Self::Server as ServerReplicator>::Histories,
        worlds: spec_fn(int) -> hecs::World,
        entity: u64,
        first: int,
        step: u64,
        next_update_step: u64,
        wc: hecs::World,
        e: u64,
    ) {
        M::acknowledged_is_primed(
            histories.0,
            worlds,
            entity,
            first,
            step,
            next_update_step,
            wc,
            e,
        );
        acknowledged_state_is_compared(
            histories.1@,
            |step: int| state::<P>(worlds(step), entity),
            first,
            step,
            next_update_step,
        );
    }

    proof fn same_composes(w0: hecs::World, w1: hecs::World, w2: hecs::World, e: u64) {
        M::same_composes(w0, w1, w2, e);
    }
}

/// Whether the client has an entity for `nid`.
pub open spec fn knows(m: Map<u64, u64>, w: hecs::World, nid: u64) -> bool {
    m.contains_key(nid) && world::net_ids(w).contains_pair(m[nid], nid)
}

/// Only entities have a [`NetId`], and none of them is dead.
pub open spec fn sane(w: hecs::World) -> bool {
    &&& world::coherent(w)
    &&& forall|e: u64| #[trigger]
        world::net_ids(w).contains_key(e) ==> world::entities(w).contains(e)
}

/// Every entity of the mapping `m` has the [`NetId`] that it stands for, or is gone for good.
pub open spec fn settled(m: Map<u64, u64>, w: hecs::World) -> bool {
    forall|nid: u64| #[trigger]
        m.contains_key(nid) ==> world::net_ids(w).contains_pair(m[nid], nid) || world::spent(
            w,
        ).contains(m[nid])
}

/// What is done with one entity does not change what the client sees of the others, and leaves
/// every entity its [`NetId`].
pub open spec fn undisturbed<M: Mirror>() -> bool {
    &&& M::independent()
    &&& forall|
        w0: hecs::World,
        w1: hecs::World,
        e: u64,
        tracks: Seq<TrackReplicate<Seq<u8>>>,
    | #[trigger]
        M::Client::followed(w0, w1, e, tracks) ==> {
            &&& world::net_ids(w1) == world::net_ids(w0)
            &&& world::aged(w0, w1)
            &&& world::same_population(w0, w1)
            &&& forall|other: u64| other != e ==> #[trigger] M::same(w0, w1, other)
        }
    &&& forall|w0: hecs::World, w1: hecs::World, e: u64, nid: u64| #[trigger]
        world::spawned(w0, w1, e, nid) ==> forall|other: u64|
            other != e ==> #[trigger] M::same(w0, w1, other)
    &&& forall|w0: hecs::World, w1: hecs::World, e: u64| #[trigger]
        world::despawned(w0, w1, e) ==> forall|other: u64|
            other != e ==> #[trigger] M::same(w0, w1, other)
    &&& forall|w0: hecs::World, w1: hecs::World| #[trigger]
        world::keeps(w0, w1) ==> forall|e: u64| #[trigger] M::same(w0, w1, e)
}

/// Pairs that keep to their entity's further components disturb neither other entities nor the
/// players, and players do not disturb them.
pub proof fn tidy_rows_are_undisturbed<M: Mirror>()
    requires
        M::tidy(),
        M::independent(),
    ensures
        undisturbed::<(M, PlayerIdPair)>(),
{
    let tracks = Seq::<TrackReplicate<Seq<u8>>>::empty();
    assert forall|
        w0: hecs::World,
        w1: hecs::World,
        e: u64,
        tracks: Seq<TrackReplicate<Seq<u8>>>,
    | #[trigger]
        M::Client::followed(w0, w1, e, tracks) implies PlayerIdPair::seen(w1, e)
        == PlayerIdPair::seen(w0, e) by {
        M::tidy_is_local(w0, w1, e, tracks);
    }
    assert forall|w0: hecs::World, w1: hecs::World, e: u64, track: TrackReplicate<Seq<u8>>|
     #[trigger]
        client::slot_followed::<client::PlayerIdDescriptor>(w0, w1, e, track) implies M::same(
        w0,
        w1,
        e,
    ) by {
        M::tidy_is_local(w0, w1, e, tracks);
    }
    assert forall|
        w0: hecs::World,
        w1: hecs::World,
        e: u64,
        tracks: Seq<TrackReplicate<Seq<u8>>>,
    | #[trigger]
        <(M, PlayerIdPair) as Mirror>::Client::followed(w0, w1, e, tracks) implies {
        &&& world::net_ids(w1) == world::net_ids(w0)
        &&& world::aged(w0, w1)
        &&& world::same_population(w0, w1)
        &&& forall|other: u64|
            other != e ==> #[trigger] <(M, PlayerIdPair) as Mirror>::same(w0, w1, other)
    } by {
        let between = choose|between: hecs::World| #[trigger]
            M::Client::followed(w0, between, e, tracks.drop_last()) && client::slot_followed::<
                client::PlayerIdDescriptor,
            >(between, w1, e, tracks.last());
        M::tidy_is_local(w0, between, e, tracks.drop_last());
        assert forall|other: u64| other != e implies #[trigger] <(
            M,
            PlayerIdPair,
        ) as Mirror>::same(w0, w1, other) by {
            assert(world::alike(w0, between, other));
            assert(world::alike(w0, w1, other));
            M::tidy_is_local(w0, w1, other, tracks);
        }
    }
    assert forall|w0: hecs::World, w1: hecs::World, e: u64, nid: u64| #[trigger]
        world::spawned(w0, w1, e, nid) implies forall|other: u64|
        other != e ==> #[trigger] <(M, PlayerIdPair) as Mirror>::same(w0, w1, other) by {
        assert forall|other: u64| other != e implies #[trigger] <(
            M,
            PlayerIdPair,
        ) as Mirror>::same(w0, w1, other) by {
            M::tidy_is_local(w0, w1, other, tracks);
        }
    }
    assert forall|w0: hecs::World, w1: hecs::World, e: u64| #[trigger]
        world::despawned(w0, w1, e) implies forall|other: u64|
        other != e ==> #[trigger] <(M, PlayerIdPair) as Mirror>::same(w0, w1, other) by {
        assert forall|other: u64| other != e implies #[trigger] <(
            M,
            PlayerIdPair,
        ) as Mirror>::same(w0, w1, other) by {
            M::tidy_is_local(w0, w1, other, tracks);
        }
    }
    assert forall|w0: hecs::World, w1: hecs::World| #[trigger]
        world::keeps(w0, w1) implies forall|e: u64| #[trigger]
        <(M, PlayerIdPair) as Mirror>::same(w0, w1, e) by {
        assert forall|e: u64| #[trigger] <(M, PlayerIdPair) as Mirror>::same(w0, w1, e) by {
            M::tidy_is_local(w0, w1, e, tracks);
        }
    }
}

/// From `(m0, w0)` to `(m1, w1)` the client keeps its entity for `nid`, and nothing changed that it
/// sees of it.
pub open spec fn kept<M: Mirror>(
    m0: Map<u64, u64>,
    w0: hecs::World,
    m1: Map<u64, u64>,
    w1: hecs::World,
    nid: u64,
) -> bool {
    knows(m1, w1, nid) && m1[nid] == m0[nid] && M::same(w0, w1, m0[nid])
}

/// What one update does with its entity.
pub open spec fn does<M: Mirror>(
    m0: Map<u64, u64>,
    w0: hecs::World,
    m1: Map<u64, u64>,
    w1: hecs::World,
    update: EntityUpdate,
    between: hecs::World,
    entity: Result<u64, MapperError>,
) -> bool {
    &&& nid::obtained(m0, w0, m1, between, update.nid, entity)
    &&& entity is Ok
    &&& M::Client::followed(between, w1, entity->Ok_0, update.tracks)
}

proof fn lemma_update_done<M: Mirror>(
    m0: Map<u64, u64>,
    w0: hecs::World,
    m1: Map<u64, u64>,
    w1: hecs::World,
    update: EntityUpdate,
) -> (done: (hecs::World, Result<u64, MapperError>))
    requires
        replication::update_followed::<M::Client>(m0, w0, m1, w1, update, Ok(())),
    ensures
        does::<M>(m0, w0, m1, w1, update, done.0, done.1),
{
    let (between, entity) = choose|between: hecs::World, entity: Result<u64, MapperError>|
     #[trigger]
        nid::obtained(m0, w0, m1, between, update.nid, entity) && match entity {
            Err(err) => w1 == between && Ok::<(), ReplicateError>(()) == Err::<(), _>(
                ReplicateError::Mapper(err),
            ),
            Ok(e) => M::Client::followed(between, w1, e, update.tracks),
        };
    (between, entity)
}

proof fn lemma_update_keeps<M: Mirror>(
    m0: Map<u64, u64>,
    w0: hecs::World,
    m1: Map<u64, u64>,
    w1: hecs::World,
    update: EntityUpdate,
)
    requires
        undisturbed::<M>(),
        sane(w0),
        replication::update_followed::<M::Client>(m0, w0, m1, w1, update, Ok(())),
    ensures
        sane(w1),
        settled(m0, w0) ==> settled(m1, w1),
        settled(m0, w0) && nid::one_to_one(m0) ==> nid::one_to_one(m1),
{
    let (between, entity) = lemma_update_done::<M>(m0, w0, m1, w1, update);
    let e = entity->Ok_0;
    assert forall|x: u64| #[trigger] world::net_ids(w1).contains_key(x) implies world::entities(
        w1,
    ).contains(x) by {
        assert(world::net_ids(between).contains_key(x));
        if x != e {
            assert(world::net_ids(w0).contains_key(x));
            assert(world::entities(w0).contains(x));
        } else if between == w0 {
            assert(world::net_ids(w0).contains_key(x));
        }
        assert(world::entities(between).contains(x));
    }
    if settled(m0, w0) {
        assert forall|x: u64| #[trigger] m1.contains_key(x) implies world::net_ids(
            w1,
        ).contains_pair(m1[x], x) || world::spent(w1).contains(m1[x]) by {
            if x != update.nid {
                assert(m0.contains_key(x));
            }
        }
        if nid::one_to_one(m0) {
            assert(nid::sound(m0, w0));
            nid::mapping_stays_sound(m0, w0, m1, between, update.nid, entity);
        }
    }
}

proof fn lemma_updates_keep<M: Mirror>(
    updates: Seq<EntityUpdate>,
    m0: Map<u64, u64>,
    w0: hecs::World,
    m1: Map<u64, u64>,
    w1: hecs::World,
    result: Result<(), ReplicateError>,
)
    requires
        undisturbed::<M>(),
        sane(w0),
        settled(m0, w0),
        nid::one_to_one(m0),
        replication::updates_followed::<M::Client>(updates, m0, w0, m1, w1, result),
    ensures
        result is Ok ==> sane(w1) && settled(m1, w1) && nid::one_to_one(m1),
        result matches Err(err) ==> err == ReplicateError::Mapper(MapperError::WorldFull),
    decreases updates.len(),
{
    if updates.len() > 0 {
        let rest = updates.drop_last();
        if result is Err && replication::updates_followed::<M::Client>(
            rest,
            m0,
            w0,
            m1,
            w1,
            result,
        ) {
            lemma_updates_keep::<M>(rest, m0, w0, m1, w1, result);
        } else {
            let (m, w) = choose|m: Map<u64, u64>, w: hecs::World|
                {
                    &&& replication::updates_followed::<M::Client>(rest, m0, w0, m, w, Ok(()))
                    &&& #[trigger] replication::update_followed::<M::Client>(
                        m,
                        w,
                        m1,
                        w1,
                        updates.last(),
                        result,
                    )
                };
            lemma_updates_keep::<M>(rest, m0, w0, m, w, Ok(()));
            if result is Ok {
                assert(result->Ok_0 == ());
                assert(result == Ok::<(), ReplicateError>(()));
                lemma_update_keeps::<M>(m, w, m1, w1, updates.last());
            } else {
                let (between, entity) = choose|
                    between: hecs::World,
                    entity: Result<u64, MapperError>,
                | #[trigger]
                    nid::obtained(m, w, m1, between, updates.last().nid, entity) && match entity {
                        Err(err) => w1 == between && result == Err::<(), _>(
                            ReplicateError::Mapper(err),
                        ),
                        Ok(e) => M::Client::followed(between, w1, e, updates.last().tracks)
                            && result is Ok,
                    };
                assert(nid::sound(m, w));
                nid::mapping_stays_sound(m, w, m1, between, updates.last().nid, entity);
            }
        }
    }
}

proof fn lemma_update_frames<M: Mirror>(
    m0: Map<u64, u64>,
    w0: hecs::World,
    m1: Map<u64, u64>,
    w1: hecs::World,
    update: EntityUpdate,
    other: u64,
)
    requires
        undisturbed::<M>(),
        replication::update_followed::<M::Client>(m0, w0, m1, w1, update, Ok(())),
        other != update.nid,
        knows(m0, w0, other),
    ensures
        kept::<M>(m0, w0, m1, w1, other),
{
    let (between, entity) = lemma_update_done::<M>(m0, w0, m1, w1, update);
    let e = entity->Ok_0;
    assert(world::net_ids(between).contains_pair(e, update.nid));
    assert(m1[other] == m0[other]);
    assert(m0[other] != e);
    assert(knows(m1, between, other));
    M::same_composes(w0, between, w1, m0[other]);
    if between != w0 {
        assert(world::spawned(w0, between, e, update.nid));
    }
    assert(M::same(w0, between, m0[other]));
    assert(M::same(between, w1, m0[other]));
}

proof fn lemma_update_converges<M: Mirror>(
    m0: Map<u64, u64>,
    w0: hecs::World,
    m1: Map<u64, u64>,
    w1: hecs::World,
    replica: Replica<<M::Server as ServerReplicator>::Histories>,
    back: u64,
    w: hecs::World,
)
    requires
        undisturbed::<M>(),
        sane(w0),
        M::valid(w, replica.entity),
        M::known(replica.histories, replicas::compared(replica, back)) ==> knows(
            m0,
            w0,
            replica.nid.0,
        ) && M::primed(
            replica.histories,
            replicas::compared(replica, back),
            w0,
            m0[replica.nid.0],
        ),
        replication::update_followed::<M::Client>(
            m0,
            w0,
            m1,
            w1,
            replicas::update_of::<M::Server>(replica, back, w),
            Ok(()),
        ),
    ensures
        knows(m1, w1, replica.nid.0),
        M::shown(w, replica.entity, w1, m1[replica.nid.0]),
{
    let update = replicas::update_of::<M::Server>(replica, back, w);
    let (between, entity) = lemma_update_done::<M>(m0, w0, m1, w1, update);
    let e = entity->Ok_0;
    let point = replicas::compared(replica, back);
    M::same_is_same(replica.histories, point, w, replica.entity, between, w1, e);
    M::row_converges(replica.histories, point, w, replica.entity, between, w1, e);
    assert(world::net_ids(between).contains_pair(e, update.nid));
}

/// Of each replicated entity of which the server knows the state that it compares with, the client
/// has an entity, and sees that state.
pub open spec fn up_to_date<M: Mirror>(
    replicas: Seq<Replica<<M::Server as ServerReplicator>::Histories>>,
    back: u64,
    w: hecs::World,
    m: Map<u64, u64>,
    wc: hecs::World,
) -> bool {
    forall|i: int|
        0 <= i < replicas.len() && replicas::replicated(w, #[trigger] replicas[i]) ==> {
            let point = replicas::compared(replicas[i], back);
            M::known(replicas[i].histories, point) ==> {
                &&& knows(m, wc, replicas[i].nid.0)
                &&& M::primed(replicas[i].histories, point, wc, m[replicas[i].nid.0])
            }
        }
}

/// The histories of each of `replicas` hold its state at each step since it came, up to the step
/// before `step`, and its marks whether the server owned it. The server's world was `worlds` of the
/// step, and `first` tells by its id at which step an entity came.
pub open spec fn recorded_since<M: Mirror>(
    replicas: Seq<Replica<<M::Server as ServerReplicator>::Histories>>,
    worlds: spec_fn(int) -> hecs::World,
    first: spec_fn(u64) -> int,
    step: int,
) -> bool {
    forall|i: int|
        0 <= i < replicas.len() ==> {
            let replica = #[trigger] replicas[i];
            &&& 0 <= first(replica.nid.0)
            &&& M::since(replica.histories, worlds, replica.entity, first(replica.nid.0), step)
            &&& one_per_step(
                replica.marks@,
                |step: int| replicas::mark(worlds(step), replica.entity),
                first(replica.nid.0),
                step,
            )
        }
}

/// Once a server began to replicate what it owns, and noted the state of each entity, the histories
/// hold one step more. Entities that are new came at this step.
pub proof fn histories_grow_by_steps<M: Mirror>(
    r0: Seq<Replica<<M::Server as ServerReplicator>::Histories>>,
    g0: nid::IdGen,
    m0: Map<u64, u64>,
    w0: hecs::World,
    r1: Seq<Replica<<M::Server as ServerReplicator>::Histories>>,
    g1: nid::IdGen,
    m1: Map<u64, u64>,
    r2: Seq<Replica<<M::Server as ServerReplicator>::Histories>>,
    worlds: spec_fn(int) -> hecs::World,
    first: spec_fn(u64) -> int,
    step: int,
)
    requires
        0 <= step,
        recorded_since::<M>(r0, worlds, first, step),
        replicas::entities_added::<M::Server>(r0, g0, m0, w0, r1, g1, m1, worlds(step)),
        replicas::histories_updated::<M::Server>(r1, r2, worlds(step)),
        forall|i: int| r0.len() <= i < r1.len() ==> first((#[trigger] r1[i]).nid.0) == step,
    ensures
        recorded_since::<M>(r1, worlds, first, step),
        recorded_since::<M>(r2, worlds, first, step + 1),
{
    let news = r1.skip(r0.len() as int);
    let kept = replicas::survivors(r1, worlds(step));
    assert forall|i: int| 0 <= i < r1.len() implies {
        let replica = #[trigger] r1[i];
        &&& 0 <= first(replica.nid.0)
        &&& M::since(replica.histories, worlds, replica.entity, first(replica.nid.0), step)
        &&& one_per_step(
            replica.marks@,
            |step: int| replicas::mark(worlds(step), replica.entity),
            first(replica.nid.0),
            step,
        )
    } by {
        if i < r0.len() {
            assert(r1.take(r0.len() as int)[i] == r0[i]);
        } else {
            assert(news[i - r0.len()] == r1[i]);
            assert(M::Server::fresh(r1[i].histories));
            M::histories_keep_pace(
                r1[i].histories,
                r1[i].histories,
                worlds,
                r1[i].entity,
                step,
                step,
            );
        }
    }
    assert forall|i: int| 0 <= i < r2.len() implies {
        let replica = #[trigger] r2[i];
        &&& 0 <= first(replica.nid.0)
        &&& M::since(replica.histories, worlds, replica.entity, first(replica.nid.0), step + 1)
        &&& one_per_step(
            replica.marks@,
            |step: int| replicas::mark(worlds(step), replica.entity),
            first(replica.nid.0),
            step + 1,
        )
    } by {
        assert(replicas::recorded::<M::Server>(kept[i], r2[i], worlds(step)));
        assert(kept.contains(kept[i]));
        replicas::survivors_are_live(r1, worlds(step), kept[i]);
        let j = choose|j: int| 0 <= j < r1.len() && r1[j] == kept[i];
        assert(r1[j] == kept[i]);
        M::histories_keep_pace(
            kept[i].histories,
            r2[i].histories,
            worlds,
            kept[i].entity,
            first(kept[i].nid.0),
            step,
        );
        history_keeps_pace(
            kept[i].marks@,
            |step: int| replicas::mark(worlds(step), kept[i].entity),
            first(kept[i].nid.0),
            step,
        );
    }
}

/// A client that mirrored the server's world of the last step that it acknowledges is up to date
/// with what the server compares with at the step `step`: of each replicated entity that is not
/// younger, and that the server owned then, it sees the state of that step. `first` tells by its id
/// at which step each entity came.
pub proof fn acknowledged_is_up_to_date<M: Mirror>(
    replicas: Seq<Replica<<M::Server as ServerReplicator>::Histories>>,
    worlds: spec_fn(int) -> hecs::World,
    first: spec_fn(u64) -> int,
    step: u64,
    next_update_step: u64,
    m: Map<u64, u64>,
    wc: hecs::World,
)
    requires
        next_update_step <= step,
        recorded_since::<M>(replicas, worlds, first, step as int),
        forall|i: int|
            0 <= i < replicas.len() && first((#[trigger] replicas[i]).nid.0) < next_update_step
                && world::owned(worlds(next_update_step - 1)).contains(replicas[i].entity)
                && replicas::replicated(worlds(step as int), replicas[i]) ==> {
                &&& knows(m, wc, replicas[i].nid.0)
                &&& M::shown(
                    worlds(next_update_step - 1),
                    replicas[i].entity,
                    wc,
                    m[replicas[i].nid.0],
                )
            },
    ensures
        up_to_date::<M>(
            replicas,
            (step - next_update_step) as u64,
            worlds(step as int),
            m,
            wc,
        ),
{
    let back = (step - next_update_step) as u64;
    assert forall|i: int|
        0 <= i < replicas.len() && replicas::replicated(
            worlds(step as int),
            #[trigger] replicas[i],
        ) implies {
        let point = replicas::compared(replicas[i], back);
        M::known(replicas[i].histories, point) ==> {
            &&& knows(m, wc, replicas[i].nid.0)
            &&& M::primed(replicas[i].histories, point, wc, m[replicas[i].nid.0])
        }
    } by {
        let entity = replicas[i].entity;
        M::beyond_is_unknown(replicas[i].histories);
        acknowledged_state_is_compared(
            replicas[i].marks@,
            |step: int| replicas::mark(worlds(step), entity),
            first(replicas[i].nid.0),
            step,
            next_update_step,
        );
        M::acknowledged_is_primed(
            replicas[i].histories,
            worlds,
            replicas[i].entity,
            first(replicas[i].nid.0),
            step,
            next_update_step,
            wc,
            m[replicas[i].nid.0],
        );
    }
}

/// None of `replicas` that is replicated in the server's world `w` has the id `nid`.
pub open spec fn absent<H>(replicas: Seq<Replica<H>>, w: hecs::World, nid: u64) -> bool {
    forall|i: int|
        0 <= i < replicas.len() && replicas::replicated(w, #[trigger] replicas[i])
            ==> replicas[i].nid.0 != nid
}

/// The client has an entity for each replicated entity of the server, and sees its whole state.
pub open spec fn mirrored<M: Mirror>(
    replicas: Seq<Replica<<M::Server as ServerReplicator>::Histories>>,
    w: hecs::World,
    m: Map<u64, u64>,
    wc: hecs::World,
) -> bool {
    forall|i: int|
        0 <= i < replicas.len() && replicas::replicated(w, #[trigger] replicas[i]) ==> {
            &&& knows(m, wc, replicas[i].nid.0)
            &&& M::shown(w, replicas[i].entity, wc, m[replicas[i].nid.0])
        }
}

/// After a client did what a server sent, it has an entity for each replicated entity of the
/// server, and sees its whole state. Entities of ids that the server does not replicate stay as
/// they were.
pub proof fn worlds_converge<M: Mirror>(
    replicas: Seq<Replica<<M::Server as ServerReplicator>::Histories>>,
    back: u64,
    w: hecs::World,
    m0: Map<u64, u64>,
    w0: hecs::World,
    m1: Map<u64, u64>,
    w1: hecs::World,
)
    requires
        undisturbed::<M>(),
        M::Server::count() > 0,
        sane(w0),
        forall|i: int|
            0 <= i < replicas.len() && replicas::replicated(w, #[trigger] replicas[i]) ==> M::valid(
                w,
                replicas[i].entity,
            ),
        forall|i: int, j: int|
            0 <= i < j < replicas.len() ==> (#[trigger] replicas[i]).nid != (
            #[trigger] replicas[j]).nid,
        up_to_date::<M>(replicas, back, w, m0, w0),
        replication::updates_followed::<M::Client>(
            replicas::updates::<M::Server>(replicas, back, w),
            m0,
            w0,
            m1,
            w1,
            Ok(()),
        ),
    ensures
        sane(w1),
        mirrored::<M>(replicas, w, m1, w1),
        forall|nid: u64|
            knows(m0, w0, nid) && absent(replicas, w, nid) ==> #[trigger] kept::<M>(
                m0,
                w0,
                m1,
                w1,
                nid,
            ),
    decreases replicas.len(),
{
    if replicas.len() == 0 {
        assert forall|nid: u64| knows(m0, w0, nid) implies #[trigger] kept::<M>(
            m0,
            w0,
            m1,
            w1,
            nid,
        ) by {
            M::same_composes(w0, w0, w0, m0[nid]);
        }
    } else {
        let rest = replicas.drop_last();
        let last = replicas.last();
        let nid = last.nid.0;
        let all = replicas::updates::<M::Server>(replicas, back, w);
        let before = replicas::updates::<M::Server>(rest, back, w);
        let update = replicas::update_of::<M::Server>(last, back, w);
        let point = replicas::compared(last, back);
        assert(replicas[replicas.len() - 1] == last);
        assert forall|i: int| 0 <= i < rest.len() implies rest[i] == #[trigger] replicas[i] by {
        }
        assert forall|other: u64| #[trigger] absent(replicas, w, other) implies absent(
            rest,
            w,
            other,
        ) && (replicas::replicated(w, last) ==> other != nid) by {
            assert forall|i: int|
                0 <= i < rest.len() && replicas::replicated(
                    w,
                    #[trigger] rest[i],
                ) implies rest[i].nid.0 != other by {
                assert(rest[i] == replicas[i]);
            }
        }
        assert(absent(rest, w, nid)) by {
            assert forall|i: int|
                0 <= i < rest.len() && replicas::replicated(
                    w,
                    #[trigger] rest[i],
                ) implies rest[i].nid.0 != nid by {
                assert(rest[i] == replicas[i]);
            }
        }
        if replicas::replicated(w, last) && update.changed() {
            assert(all.drop_last() =~= before);
            let (m, wm) = choose|m: Map<u64, u64>, wm: hecs::World|
                {
                    &&& replication::updates_followed::<M::Client>(before, m0, w0, m, wm, Ok(()))
                    &&& #[trigger] replication::update_followed::<M::Client>(
                        m,
                        wm,
                        m1,
                        w1,
                        all.last(),
                        Ok(()),
                    )
                };
            worlds_converge::<M>(rest, back, w, m0, w0, m, wm);
            if M::known(last.histories, point) {
                assert(kept::<M>(m0, w0, m, wm, nid));
                M::same_is_same(last.histories, point, w, last.entity, w0, wm, m0[nid]);
            }
            lemma_update_converges::<M>(m, wm, m1, w1, last, back, w);
            lemma_update_keeps::<M>(m, wm, m1, w1, update);
            assert forall|i: int|
                0 <= i < replicas.len() && replicas::replicated(w, #[trigger] replicas[i]) implies {
                &&& knows(m1, w1, replicas[i].nid.0)
                &&& M::shown(w, replicas[i].entity, w1, m1[replicas[i].nid.0])
            } by {
                if i < rest.len() {
                    assert(rest[i] == replicas[i]);
                    let other = replicas[i].nid.0;
                    lemma_update_frames::<M>(m, wm, m1, w1, update, other);
                    M::same_is_same(
                        last.histories,
                        point,
                        w,
                        replicas[i].entity,
                        wm,
                        w1,
                        m[other],
                    );
                }
            }
            assert forall|other: u64|
                knows(m0, w0, other) && absent(replicas, w, other) implies #[trigger] kept::<M>(
                m0,
                w0,
                m1,
                w1,
                other,
            ) by {
                assert(kept::<M>(m0, w0, m, wm, other));
                lemma_update_frames::<M>(m, wm, m1, w1, update, other);
                M::same_composes(w0, wm, w1, m0[other]);
            }
        } else {
            worlds_converge::<M>(rest, back, w, m0, w0, m1, w1);
            if replicas::replicated(w, last) {
                let e = m0[nid];
                let tracks = M::Server::tracks(last.histories, point, w, last.entity);
                assert forall|i: int| 0 <= i < tracks.len() implies (#[trigger] tracks[i]) is
                    Unmodified by {
                    assert(update.tracks[i] is Unmodified);
                }
                M::same_is_same(last.histories, point, w, last.entity, w0, w1, e);
                M::row_converges(last.histories, point, w, last.entity, w0, w1, e);
                assert(kept::<M>(m0, w0, m1, w1, nid));
            }
            assert forall|i: int|
                0 <= i < replicas.len() && replicas::replicated(w, #[trigger] replicas[i]) implies {
                &&& knows(m1, w1, replicas[i].nid.0)
                &&& M::shown(w, replicas[i].entity, w1, m1[replicas[i].nid.0])
            } by {
                if i < rest.len() {
                    assert(rest[i] == replicas[i]);
                }
            }
        }
    }
}

/// After a client despawned the entities of removed ids it has none of them, and all others stay as
/// they were.
pub proof fn removed_are_gone<M: Mirror>(
    ids: Seq<NetId>,
    m: Map<u64, u64>,
    w0: hecs::World,
    w1: hecs::World,
)
    requires
        undisturbed::<M>(),
        sane(w0),
        replication::removals_followed(ids, m, w0, w1, Ok(())),
    ensures
        sane(w1),
        settled(m, w0) ==> settled(m, w1),
        forall|i: int| 0 <= i < ids.len() ==> !knows(m, w1, (#[trigger] ids[i]).0),
        forall|nid: u64| !knows(m, w0, nid) ==> !#[trigger] knows(m, w1, nid),
        forall|nid: u64|
            knows(m, w0, nid) && (forall|i: int|
                0 <= i < ids.len() && m.contains_key((#[trigger] ids[i]).0) ==> m[ids[i].0]
                    != m[nid]) ==> #[trigger] kept::<M>(m, w0, m, w1, nid),
    decreases ids.len(),
{
    if ids.len() == 0 {
        assert forall|nid: u64| knows(m, w0, nid) implies #[trigger] kept::<M>(
            m,
            w0,
            m,
            w1,
            nid,
        ) by {
            M::same_composes(w0, w0, w0, m[nid]);
        }
    } else {
        let rest = ids.drop_last();
        let last = ids.last();
        let w = choose|w: hecs::World|
            {
                &&& replication::removals_followed(rest, m, w0, w, Ok(()))
                &&& #[trigger] replication::removal_followed(m, w, w1, last, Ok(()))
            };
        removed_are_gone::<M>(rest, m, w0, w);
        assert(ids[ids.len() - 1] == last);
        assert forall|x: u64| #[trigger] world::net_ids(w1).contains_key(x) implies
            world::entities(w1).contains(x) by {
            assert(world::net_ids(w).contains_key(x));
            assert(world::entities(w).contains(x));
        }
        assert(!knows(m, w1, last.0)) by {
            if m.contains_key(last.0) && world::net_ids(w).contains_key(m[last.0]) {
                assert(world::entities(w).contains(m[last.0]));
            }
        }
        assert forall|nid: u64| !knows(m, w, nid) implies !#[trigger] knows(m, w1, nid) by {
        }
        assert forall|i: int| 0 <= i < ids.len() implies !knows(m, w1, (#[trigger] ids[i]).0) by {
            if i < rest.len() {
                assert(rest[i] == ids[i]);
                assert(!knows(m, w, rest[i].0));
            }
        }
        assert forall|nid: u64|
            knows(m, w0, nid) && (forall|i: int|
                0 <= i < ids.len() && m.contains_key((#[trigger] ids[i]).0) ==> m[ids[i].0]
                    != m[nid]) implies #[trigger] kept::<M>(m, w0, m, w1, nid) by {
            assert forall|i: int|
                0 <= i < rest.len() && m.contains_key((#[trigger] rest[i]).0) implies m[rest[i].0]
                != m[nid] by {
                assert(rest[i] == ids[i]);
            }
            assert(kept::<M>(m, w0, m, w, nid));
            M::same_composes(w0, w, w1, m[nid]);
            M::same_composes(w, w, w, m[nid]);
            if w1 != w {
                assert(world::despawned(w, w1, m[last.0]) || world::keeps(w, w1));
                assert(M::same(w, w1, m[nid]));
            }
        }
    }
}

/// `e` is an entity of the client's own: no id of the mapping `m` stands for it.
pub open spec fn own(m: Map<u64, u64>, w: hecs::World, e: u64) -> bool {
    &&& world::entities(w).contains(e)
    &&& forall|nid: u64| #[trigger] m.contains_key(nid) ==> m[nid] != e
}

proof fn lemma_updates_keep_own<M: Mirror>(
    updates: Seq<EntityUpdate>,
    m0: Map<u64, u64>,
    w0: hecs::World,
    m1: Map<u64, u64>,
    w1: hecs::World,
    e: u64,
)
    requires
        undisturbed::<M>(),
        own(m0, w0, e),
        replication::updates_followed::<M::Client>(updates, m0, w0, m1, w1, Ok(())),
    ensures
        own(m1, w1, e),
        M::same(w0, w1, e),
    decreases updates.len(),
{
    M::same_composes(w0, w0, w0, e);
    if updates.len() > 0 {
        let (m, w) = choose|m: Map<u64, u64>, w: hecs::World|
            {
                &&& replication::updates_followed::<M::Client>(
                    updates.drop_last(),
                    m0,
                    w0,
                    m,
                    w,
                    Ok(()),
                )
                &&& #[trigger] replication::update_followed::<M::Client>(
                    m,
                    w,
                    m1,
                    w1,
                    updates.last(),
                    Ok(()),
                )
            };
        lemma_updates_keep_own::<M>(updates.drop_last(), m0, w0, m, w, e);
        let (between, entity) = lemma_update_done::<M>(m, w, m1, w1, updates.last());
        assert(entity->Ok_0 != e);
        assert forall|nid: u64| #[trigger] m1.contains_key(nid) implies m1[nid] != e by {
            assert(nid == updates.last().nid || m.contains_key(nid));
        }
        M::same_composes(w, w, w, e);
        assert(M::same(w, between, e));
        assert(M::same(between, w1, e));
        M::same_composes(w, between, w1, e);
        M::same_composes(w0, w, w1, e);
    }
}

proof fn lemma_removals_keep_own<M: Mirror>(
    ids: Seq<NetId>,
    m: Map<u64, u64>,
    w0: hecs::World,
    w1: hecs::World,
    e: u64,
)
    requires
        undisturbed::<M>(),
        own(m, w0, e),
        replication::removals_followed(ids, m, w0, w1, Ok(())),
    ensures
        own(m, w1, e),
        M::same(w0, w1, e),
    decreases ids.len(),
{
    M::same_composes(w0, w0, w0, e);
    if ids.len() > 0 {
        let w = choose|w: hecs::World|
            {
                &&& replication::removals_followed(ids.drop_last(), m, w0, w, Ok(()))
                &&& #[trigger] replication::removal_followed(m, w, w1, ids.last(), Ok(()))
            };
        lemma_removals_keep_own::<M>(ids.drop_last(), m, w0, w, e);
        M::same_composes(w, w, w, e);
        if w1 != w {
            assert(m.contains_key(ids.last().0));
            assert(world::despawned(w, w1, m[ids.last().0]) || world::keeps(w, w1));
            assert(M::same(w, w1, e));
        }
        M::same_composes(w0, w, w1, e);
    }
}

/// What a server packed can be read, whatever the client knows.
proof fn lemma_sendable<M: Mirror>(
    pack: replicas::WorldReplicaPack,
    replicas: Seq<Replica<<M::Server as ServerReplicator>::Histories>>,
    mapper: nid::EntityMapper,
    id_gen: nid::IdGen,
    back: u64,
    w: hecs::World,
    m0: Map<u64, u64>,
    w0: hecs::World,
)
    requires
        undisturbed::<M>(),
        0 < M::Server::count() <= mask::MASK_SLOTS,
        replicas::packed::<M::Server>(pack, replicas, mapper, back, w),
        replicas::consistent(replicas, mapper@),
        mapper.issued_by(id_gen),
        forall|i: int|
            0 <= i < replicas.len() && replicas::replicated(w, #[trigger] replicas[i]) ==> M::valid(
                w,
                replicas[i].entity,
            ),
        up_to_date::<M>(replicas, back, w, m0, w0),
    ensures
        replication::sendable::<M::Client>(replicas::updates::<M::Server>(replicas, back, w)),
        forall|i: int| 0 <= i < pack.removed@.len() ==> (#[trigger] pack.removed@[i]).0 != 0,
{
    let updates = replicas::updates::<M::Server>(replicas, back, w);
    let ids = pack.removed@;
    assert forall|i: int| 0 <= i < updates.len() implies {
        &&& (#[trigger] updates[i]).nid != 0
        &&& updates[i].tracks.len() <= mask::MASK_SLOTS
        &&& M::Client::accepts(updates[i].tracks)
    } by {
        only_changes_are_sent::<M::Server>(replicas, back, w, updates[i]);
        assert(updates.contains(updates[i]));
        let k = choose|k: int|
            0 <= k < replicas.len() && replicas::replicated(w, #[trigger] replicas[k])
                && updates[i] == replicas::update_of::<M::Server>(replicas[k], back, w)
                && updates[i].changed();
        let replica = replicas[k];
        let e = m0[replica.nid.0];
        let point = replicas::compared(replica, back);
        M::same_is_same(replica.histories, point, w, replica.entity, w0, w0, e);
        M::row_converges(replica.histories, point, w, replica.entity, w0, w0, e);
        M::Server::one_track_each(replica.histories, point, w, replica.entity);
        assert(mapper@.contains_pair(replica.nid.0, replica.entity));
        assert(mapper@.contains_key(replica.nid.0));
    }
    assert forall|i: int| 0 <= i < ids.len() implies (#[trigger] ids[i]).0 != 0 by {
        assert(ids.contains(ids[i]));
        assert(mapper@.contains_key(ids[i].0));
    }
}

/// The pairs agree on each entity that is replicated in the server's world `w`, and no player has
/// the number zero there.
pub open spec fn agreed<M: Mirror>(
    replicas: Seq<
        Replica<<(M::Server, server::PlayerIdDescriptor) as ServerReplicator>::Histories>,
    >,
    w: hecs::World,
) -> bool {
    forall|i: int|
        0 <= i < replicas.len() && replicas::replicated(w, #[trigger] replicas[i]) ==> {
            &&& M::valid(w, replicas[i].entity)
            &&& state::<PlayerIdPair>(w, replicas[i].entity) != Some(PlayerId(0))
        }
}

/// The server's side of an update: `pack` was made for a client of what the server replicates in
/// the world `w`.
pub open spec fn served<M: Mirror>(
    pack: replicas::WorldReplicaPack,
    replicas: Seq<
        Replica<<(M::Server, server::PlayerIdDescriptor) as ServerReplicator>::Histories>,
    >,
    mapper: nid::EntityMapper,
    id_gen: nid::IdGen,
    back: u64,
    w: hecs::World,
) -> bool {
    &&& M::tidy()
    &&& M::independent()
    &&& M::Server::count() < mask::MASK_SLOTS
    &&& replicas::packed::<(M::Server, server::PlayerIdDescriptor)>(
        pack,
        replicas,
        mapper,
        back,
        w,
    )
    &&& replicas::consistent(replicas, mapper@)
    &&& mapper.issued_by(id_gen)
    &&& agreed::<M>(replicas, w)
}

/// The client has `e` for one of the ids that it knows.
pub open spec fn stands_for_one(m: Map<u64, u64>, w: hecs::World, e: u64) -> bool {
    exists|nid: u64| #[trigger] knows(m, w, nid) && m[nid] == e
}

/// What comes of a message with `updates` and the removed `ids`, which can be read: it fails where
/// the client's world has no room for the entities that are new, or else where a handle that has to
/// go is of the last generation, and only there.
pub open spec fn outcome(
    updates: Seq<EntityUpdate>,
    ids: Seq<NetId>,
    m: Map<u64, u64>,
    w: hecs::World,
) -> Result<(), ReplicateError> {
    if !has_room(updates, m, w) {
        Err(ReplicateError::Mapper(MapperError::WorldFull))
    } else if worn_out(ids, m, w) {
        Err(ReplicateError::HandlesExhausted)
    } else {
        Ok(())
    }
}

/// From one end to the other: after a client applied what a server packed for it, whatever bytes
/// follow, it has an entity for each replicated entity of the server and sees its whole state, and
/// has none for those that are gone. The entities of all other ids stay as they were, and so do
/// those of the client's own. No other entity comes. It fails only for want of room or of handles,
/// as [`outcome`] tells.
///
/// The pairs are those of players and of components that are none of the library's own. What is
/// asked of the client before holds again after, but that it is up to date: see
/// [`acknowledged_is_up_to_date`].
pub proof fn client_mirrors_server<M: Mirror>(
    pack: replicas::WorldReplicaPack,
    replicas: Seq<
        Replica<<(M::Server, server::PlayerIdDescriptor) as ServerReplicator>::Histories>,
    >,
    mapper: nid::EntityMapper,
    id_gen: nid::IdGen,
    back: u64,
    w: hecs::World,
    rest: Seq<u8>,
    m0: Map<u64, u64>,
    w0: hecs::World,
    m1: Map<u64, u64>,
    w1: hecs::World,
    result: Result<(), ReplicateError>,
)
    requires
        served::<M>(pack, replicas, mapper, id_gen, back, w),
        up_to_date::<(M, PlayerIdPair)>(replicas, back, w, m0, w0),
        sane(w0),
        settled(m0, w0),
        nid::one_to_one(m0),
        replicator::message_applied::<(M::Client, client::PlayerIdDescriptor)>(
            pack.updated as nat,
            pack.removed@.len(),
            m0,
            w0,
            m1,
            w1,
            pack.body@ + rest,
            result,
        ),
    ensures
        result == outcome(
            replicas::updates::<(M::Server, server::PlayerIdDescriptor)>(replicas, back, w),
            pack.removed@,
            m0,
            w0,
        ),
        result is Ok ==> {
            &&& mirrored::<(M, PlayerIdPair)>(replicas, w, m1, w1)
            &&& forall|e: u64| #[trigger]
                world::population(w1).contains(e) ==> world::population(w0).contains(e)
                    || stands_for_one(m1, w1, e)
            &&& forall|nid: u64| #[trigger]
                mapper.removed(w).contains(nid) ==> !knows(m1, w1, nid)
            &&& forall|nid: u64|
                knows(m0, w0, nid) && absent(replicas, w, nid) && !mapper.removed(w).contains(nid)
                    ==> #[trigger] kept::<(M, PlayerIdPair)>(m0, w0, m1, w1, nid)
            &&& forall|e: u64| #[trigger]
                own(m0, w0, e) ==> own(m1, w1, e) && <(M, PlayerIdPair) as Mirror>::same(w0, w1, e)
            &&& sane(w1)
            &&& settled(m1, w1)
            &&& nid::one_to_one(m1)
        },
{
    tidy_rows_are_undisturbed::<M>();
    assert forall|i: int|
        0 <= i < replicas.len() && replicas::replicated(w, #[trigger] replicas[i]) implies <(
        M,
        PlayerIdPair,
    ) as Mirror>::valid(w, replicas[i].entity) by {
        players_are_faithful(w, replicas[i].entity);
    }
    lemma_sendable::<(M, PlayerIdPair)>(pack, replicas, mapper, id_gen, back, w, m0, w0);
    let updates = replicas::updates::<(M::Server, server::PlayerIdDescriptor)>(replicas, back, w);
    let ids = pack.removed@;
    replication::message_arrives::<(M::Client, client::PlayerIdDescriptor)>(
        updates,
        ids,
        rest,
        m0,
        w0,
        m1,
        w1,
        result,
    );
    if result is Ok {
        assert(result->Ok_0 == ());
        assert(result == Ok::<(), ReplicateError>(()));
        lemma_message_converges::<(M, PlayerIdPair)>(
            pack,
            replicas,
            mapper,
            back,
            w,
            m0,
            w0,
            m1,
            w1,
        );
    }
    lemma_outcome::<(M, PlayerIdPair)>(
        pack,
        replicas,
        mapper,
        back,
        w,
        m0,
        w0,
        m1,
        w1,
        result,
    );
}

proof fn lemma_mirrored<M: Mirror>(
    replicas: Seq<Replica<<M::Server as ServerReplicator>::Histories>>,
    w: hecs::World,
    m: Map<u64, u64>,
    wc: hecs::World,
    j: int,
)
    requires
        mirrored::<M>(replicas, w, m, wc),
        0 <= j < replicas.len(),
        replicas::replicated(w, replicas[j]),
    ensures
        knows(m, wc, replicas[j].nid.0),
        M::shown(w, replicas[j].entity, wc, m[replicas[j].nid.0]),
{
}

/// The entity of `replica` was replicated in the world `w`, when there were the replicas `before`.
pub open spec fn was_replicated<H>(
    before: Seq<Replica<H>>,
    w: hecs::World,
    replica: Replica<H>,
) -> bool {
    exists|j: int|
        {
            &&& 0 <= j < before.len()
            &&& replicas::replicated(w, #[trigger] before[j])
            &&& before[j].nid == replica.nid
            &&& before[j].entity == replica.entity
        }
}

/// `next` are the replicas at the step after `step`: what was noted of `before` in the world `w` of
/// `step`, and the entities that came after, as `first` tells by their ids.
pub open spec fn goes_on<R: ServerReplicator>(
    before: Seq<Replica<R::Histories>>,
    w: hecs::World,
    next: Seq<Replica<R::Histories>>,
    first: spec_fn(u64) -> int,
    step: int,
) -> bool {
    exists|noted: Seq<Replica<R::Histories>>|
        {
            &&& #[trigger] replicas::histories_updated::<R>(before, noted, w)
            &&& noted.len() <= next.len()
            &&& next.take(noted.len() as int) == noted
            &&& forall|i: int|
                noted.len() <= i < next.len() ==> first((#[trigger] next[i]).nid.0) > step
        }
}

/// Whatever steps a server takes, an entity that is among its replicas and came no later than the
/// step `seen` was among them at that step, and live. So it was replicated then, if the server
/// owned it then.
pub proof fn replicas_go_on<R: ServerReplicator>(
    rows: spec_fn(int) -> Seq<Replica<R::Histories>>,
    worlds: spec_fn(int) -> hecs::World,
    first: spec_fn(u64) -> int,
    seen: int,
    step: int,
)
    requires
        seen < step,
        forall|k: int|
            seen <= k < step ==> goes_on::<R>(
                #[trigger] rows(k),
                worlds(k),
                rows(k + 1),
                first,
                k,
            ),
    ensures
        forall|i: int|
            0 <= i < rows(step).len() && first((#[trigger] rows(step)[i]).nid.0) <= seen
                && world::owned(worlds(seen)).contains(rows(step)[i].entity) ==> was_replicated(
                rows(seen),
                worlds(seen),
                rows(step)[i],
            ),
    decreases step - seen,
{
    let last = step - 1;
    assert(goes_on::<R>(rows(last), worlds(last), rows(last + 1), first, last));
    let noted = choose|noted: Seq<Replica<R::Histories>>|
        {
            &&& #[trigger] replicas::histories_updated::<R>(rows(last), noted, worlds(last))
            &&& noted.len() <= rows(step).len()
            &&& rows(step).take(noted.len() as int) == noted
            &&& forall|i: int|
                noted.len() <= i < rows(step).len() ==> first((#[trigger] rows(step)[i]).nid.0)
                    > last
        };
    let kept = replicas::survivors(rows(last), worlds(last));
    if seen < last {
        replicas_go_on::<R>(rows, worlds, first, seen, last);
    }
    assert forall|i: int|
        0 <= i < rows(step).len() && first((#[trigger] rows(step)[i]).nid.0) <= seen
            && world::owned(worlds(seen)).contains(rows(step)[i].entity) implies was_replicated(
        rows(seen),
        worlds(seen),
        rows(step)[i],
    ) by {
        assert(i < noted.len());
        assert(rows(step).take(noted.len() as int)[i] == noted[i]);
        assert(replicas::recorded::<R>(kept[i], noted[i], worlds(last)));
        assert(kept.contains(kept[i]));
        replicas::survivors_are_live(rows(last), worlds(last), kept[i]);
        let j = choose|j: int| 0 <= j < rows(last).len() && #[trigger] rows(last)[j] == kept[i];
        let row = rows(last)[j];
        assert(row.nid == rows(step)[i].nid && row.entity == rows(step)[i].entity);
        if seen < last {
            assert(was_replicated(rows(seen), worlds(seen), row));
            let k = choose|k: int|
                {
                    &&& 0 <= k < rows(seen).len()
                    &&& replicas::replicated(worlds(seen), #[trigger] rows(seen)[k])
                    &&& rows(seen)[k].nid == row.nid
                    &&& rows(seen)[k].entity == row.entity
                };
            assert(rows(seen)[k].nid == rows(step)[i].nid);
        } else {
            assert(replicas::replicated(worlds(seen), rows(seen)[j]));
        }
    }
}

/// From one step to any later one: a client that mirrors the server's world of the step that it
/// acknowledges, and applies what the server packs for it at a later step, mirrors the server's
/// world of that step, where it has the room and the handles. Between the two, it does not matter
/// what the client missed, nor which entities the server did not own meanwhile. Entities that came
/// no later than the first of the two steps, and that the server owned then, were replicated then:
/// see [`replicas_go_on`].
pub proof fn client_keeps_up<M: Mirror>(
    pack: replicas::WorldReplicaPack,
    before: Seq<
        Replica<<(M::Server, server::PlayerIdDescriptor) as ServerReplicator>::Histories>,
    >,
    now: Seq<Replica<<(M::Server, server::PlayerIdDescriptor) as ServerReplicator>::Histories>>,
    worlds: spec_fn(int) -> hecs::World,
    first: spec_fn(u64) -> int,
    seen: u64,
    step: u64,
    mapper: nid::EntityMapper,
    id_gen: nid::IdGen,
    rest: Seq<u8>,
    m0: Map<u64, u64>,
    w0: hecs::World,
    m1: Map<u64, u64>,
    w1: hecs::World,
    result: Result<(), ReplicateError>,
)
    requires
        seen < step,
        mirrored::<(M, PlayerIdPair)>(before, worlds(seen as int), m0, w0),
        recorded_since::<(M, PlayerIdPair)>(now, worlds, first, step as int),
        forall|i: int|
            0 <= i < now.len() && first((#[trigger] now[i]).nid.0) <= seen && world::owned(
                worlds(seen as int),
            ).contains(now[i].entity) && replicas::replicated(worlds(step as int), now[i])
                ==> was_replicated(
                before,
                worlds(seen as int),
                now[i],
            ),
        served::<M>(
            pack,
            now,
            mapper,
            id_gen,
            (step - seen - 1) as u64,
            worlds(step as int),
        ),
        sane(w0),
        settled(m0, w0),
        nid::one_to_one(m0),
        replicator::message_applied::<(M::Client, client::PlayerIdDescriptor)>(
            pack.updated as nat,
            pack.removed@.len(),
            m0,
            w0,
            m1,
            w1,
            pack.body@ + rest,
            result,
        ),
    ensures
        result == outcome(
            replicas::updates::<(M::Server, server::PlayerIdDescriptor)>(
                now,
                (step - seen - 1) as u64,
                worlds(step as int),
            ),
            pack.removed@,
            m0,
            w0,
        ),
        result is Ok ==> {
            &&& mirrored::<(M, PlayerIdPair)>(now, worlds(step as int), m1, w1)
            &&& sane(w1)
            &&& settled(m1, w1)
            &&& nid::one_to_one(m1)
        },
{
    let next = (seen + 1) as u64;
    assert forall|i: int|
        0 <= i < now.len() && first((#[trigger] now[i]).nid.0) < next && world::owned(
            worlds(next - 1),
        ).contains(now[i].entity) && replicas::replicated(worlds(step as int), now[i]) implies {
        &&& knows(m0, w0, now[i].nid.0)
        &&& <(M, PlayerIdPair) as Mirror>::shown(
            worlds(next - 1),
            now[i].entity,
            w0,
            m0[now[i].nid.0],
        )
    } by {
        assert(was_replicated(before, worlds(seen as int), now[i]));
        let j = choose|j: int|
            {
                &&& 0 <= j < before.len()
                &&& replicas::replicated(worlds(seen as int), #[trigger] before[j])
                &&& before[j].nid == now[i].nid
                &&& before[j].entity == now[i].entity
            };
        lemma_mirrored::<(M, PlayerIdPair)>(before, worlds(seen as int), m0, w0, j);
    }
    acknowledged_is_up_to_date::<(M, PlayerIdPair)>(now, worlds, first, step, next, m0, w0);
    client_mirrors_server::<M>(
        pack,
        now,
        mapper,
        id_gen,
        (step - next) as u64,
        worlds(step as int),
        rest,
        m0,
        w0,
        m1,
        w1,
        result,
    );
}

/// A client that mirrors the server's world of the step before the first that it has not seen is up
/// to date with what the server compares with at the step `step`, however much later that is.
pub proof fn mirrors_are_up_to_date<M: Mirror>(
    before: Seq<Replica<<M::Server as ServerReplicator>::Histories>>,
    now: Seq<Replica<<M::Server as ServerReplicator>::Histories>>,
    worlds: spec_fn(int) -> hecs::World,
    first: spec_fn(u64) -> int,
    step: u64,
    next: u64,
    m: Map<u64, u64>,
    wc: hecs::World,
)
    requires
        0 < next <= step,
        mirrored::<M>(before, worlds(next - 1), m, wc),
        recorded_since::<M>(now, worlds, first, step as int),
        forall|i: int|
            0 <= i < now.len() && first((#[trigger] now[i]).nid.0) < next && world::owned(
                worlds(next - 1),
            ).contains(now[i].entity) && replicas::replicated(worlds(step as int), now[i])
                ==> was_replicated(before, worlds(next - 1), now[i]),
    ensures
        up_to_date::<M>(now, (step - next) as u64, worlds(step as int), m, wc),
{
    assert forall|i: int|
        0 <= i < now.len() && first((#[trigger] now[i]).nid.0) < next && world::owned(
            worlds(next - 1),
        ).contains(now[i].entity) && replicas::replicated(worlds(step as int), now[i]) implies {
        &&& knows(m, wc, now[i].nid.0)
        &&& M::shown(worlds(next - 1), now[i].entity, wc, m[now[i].nid.0])
    } by {
        assert(was_replicated(before, worlds(next - 1), now[i]));
        let j = choose|j: int|
            {
                &&& 0 <= j < before.len()
                &&& replicas::replicated(worlds(next - 1), #[trigger] before[j])
                &&& before[j].nid == now[i].nid
                &&& before[j].entity == now[i].entity
            };
        lemma_mirrored::<M>(before, worlds(next - 1), m, wc, j);
    }
    acknowledged_is_up_to_date::<M>(now, worlds, first, step, next, m, wc);
}

/// A client that starts with an empty mapping and a world of which nothing has a [`NetId`] meets
/// what is asked of it.
pub proof fn clients_start_sane(w: hecs::World)
    requires
        world::coherent(w),
        world::net_ids(w) == Map::<u64, u64>::empty(),
    ensures
        sane(w),
        settled(Map::empty(), w),
        nid::one_to_one(Map::empty()),
{
}

/// A client that has seen no update yet is up to date with the little that the server takes it to
/// know, whatever its world is.
pub proof fn newcomers_are_up_to_date<M: Mirror>(
    replicas: Seq<Replica<<M::Server as ServerReplicator>::Histories>>,
    worlds: spec_fn(int) -> hecs::World,
    first: spec_fn(u64) -> int,
    step: u64,
    m: Map<u64, u64>,
    wc: hecs::World,
)
    requires
        recorded_since::<M>(replicas, worlds, first, step as int),
    ensures
        up_to_date::<M>(replicas, step, worlds(step as int), m, wc),
{
    acknowledged_is_up_to_date::<M>(replicas, worlds, first, step, 0, m, wc);
}

/// For how many of `updates` the client has no entity.
pub open spec fn lacking(updates: Seq<EntityUpdate>, m: Map<u64, u64>, w: hecs::World) -> nat
    decreases updates.len(),
{
    if updates.len() == 0 {
        0
    } else {
        lacking(updates.drop_last(), m, w) + if knows(m, w, updates.last().nid) {
            0nat
        } else {
            1nat
        }
    }
}

/// The client's world has room for each entity that `updates` tell of and that the client has not.
pub open spec fn has_room(updates: Seq<EntityUpdate>, m: Map<u64, u64>, w: hecs::World) -> bool {
    lacking(updates, m, w) == 0 || world::entity_count(w) + lacking(updates, m, w) <= u32::MAX
}

/// The client's entity of one of `ids` has a handle of the last generation.
pub open spec fn worn_out(ids: Seq<NetId>, m: Map<u64, u64>, w: hecs::World) -> bool {
    exists|k: int|
        0 <= k < ids.len() && knows(m, w, (#[trigger] ids[k]).0) && m[ids[k].0]
            >= world::LAST_GENERATION
}

/// One of `updates` is of `nid`.
spec fn tells_of(updates: Seq<EntityUpdate>, nid: u64) -> bool {
    exists|i: int| 0 <= i < updates.len() && (#[trigger] updates[i]).nid == nid
}

/// No two of `updates` are of the same entity.
spec fn distinct(updates: Seq<EntityUpdate>) -> bool {
    forall|i: int, j: int|
        0 <= i < j < updates.len() ==> (#[trigger] updates[i]).nid != (#[trigger] updates[j]).nid
}

/// Each id is in at most one update, and only those of replicated entities are.
proof fn lemma_updates_distinct<R: ServerReplicator>(
    replicas: Seq<Replica<R::Histories>>,
    back: u64,
    w: hecs::World,
)
    requires
        forall|i: int, j: int|
            0 <= i < j < replicas.len() ==> (#[trigger] replicas[i]).nid != (
            #[trigger] replicas[j]).nid,
    ensures
        distinct(replicas::updates::<R>(replicas, back, w)),
        forall|nid: u64| #[trigger]
            tells_of(replicas::updates::<R>(replicas, back, w), nid) ==> !absent(replicas, w, nid),
    decreases replicas.len(),
{
    if replicas.len() > 0 {
        let rest = replicas.drop_last();
        let last = replicas.last();
        let before = replicas::updates::<R>(rest, back, w);
        let all = replicas::updates::<R>(replicas, back, w);
        lemma_updates_distinct::<R>(rest, back, w);
        assert(replicas[replicas.len() - 1] == last);
        assert forall|nid: u64| #[trigger] tells_of(before, nid) implies !absent(replicas, w, nid)
            && nid != last.nid.0 by {
            let i = choose|i: int|
                0 <= i < rest.len() && replicas::replicated(w, #[trigger] rest[i])
                    && rest[i].nid.0 == nid;
            assert(replicas[i] == rest[i]);
        }
        assert forall|nid: u64| #[trigger] tells_of(all, nid) implies !absent(
            replicas,
            w,
            nid,
        ) by {
            let i = choose|i: int| 0 <= i < all.len() && (#[trigger] all[i]).nid == nid;
            if i < before.len() {
                assert(before[i] == all[i]);
                assert(tells_of(before, nid));
            }
        }
        assert forall|i: int, j: int| 0 <= i < j < all.len() implies (#[trigger] all[i]).nid != (
        #[trigger] all[j]).nid by {
            assert(before[i] == all[i]);
            assert(tells_of(before, all[i].nid));
            if j < before.len() {
                assert(before[j] == all[j]);
            }
        }
    }
}

/// What one update does to what the client knows, and to its world's entities.
proof fn lemma_update_known<M: Mirror>(
    m0: Map<u64, u64>,
    w0: hecs::World,
    m1: Map<u64, u64>,
    w1: hecs::World,
    update: EntityUpdate,
)
    requires
        undisturbed::<M>(),
        sane(w0),
        settled(m0, w0),
        replication::update_followed::<M::Client>(m0, w0, m1, w1, update, Ok(())),
    ensures
        knows(m1, w1, update.nid),
        forall|nid: u64|
            nid != update.nid ==> (#[trigger] knows(m1, w1, nid) <==> knows(m0, w0, nid)),
        forall|nid: u64| knows(m0, w0, nid) ==> #[trigger] m1[nid] == m0[nid],
        knows(m0, w0, update.nid) ==> {
            &&& world::entity_count(w1) == world::entity_count(w0)
            &&& world::population(w1) == world::population(w0)
        },
        !knows(m0, w0, update.nid) ==> {
            &&& world::entity_count(w0) < u32::MAX
            &&& world::entity_count(w1) == world::entity_count(w0) + 1
            &&& world::population(w1) == world::population(w0).insert(m1[update.nid])
        },
{
    let (between, entity) = lemma_update_done::<M>(m0, w0, m1, w1, update);
    let e = entity->Ok_0;
    assert(world::net_ids(between).contains_pair(e, update.nid));
    if m0.contains_key(update.nid) {
        let before = m0[update.nid];
        if world::net_ids(w0).contains_pair(before, update.nid) {
            assert(world::net_ids(w0).contains_key(before));
            assert(world::entities(w0).contains(before));
        } else {
            assert(world::spent(w0).contains(before));
        }
    }
    if !knows(m0, w0, update.nid) {
        assert(world::spawned(w0, between, e, update.nid));
        assert(world::population(between) =~= world::population(w0).insert(e));
    }
    assert forall|nid: u64| nid != update.nid implies (#[trigger] knows(m1, w1, nid) <==> knows(
        m0,
        w0,
        nid,
    )) by {
        if m0.contains_key(nid) && m0[nid] == e {
            assert(!world::net_ids(between).contains_pair(e, nid));
        }
    }
}

proof fn lemma_room<M: Mirror>(
    updates: Seq<EntityUpdate>,
    m0: Map<u64, u64>,
    w0: hecs::World,
    m1: Map<u64, u64>,
    w1: hecs::World,
    result: Result<(), ReplicateError>,
)
    requires
        undisturbed::<M>(),
        sane(w0),
        settled(m0, w0),
        nid::one_to_one(m0),
        distinct(updates),
        replication::updates_followed::<M::Client>(updates, m0, w0, m1, w1, result),
    ensures
        result is Ok <==> has_room(updates, m0, w0),
        result is Ok ==> {
            &&& world::entity_count(w1) == world::entity_count(w0) + lacking(updates, m0, w0)
            &&& forall|nid: u64|
                !tells_of(updates, nid) ==> (#[trigger] knows(m1, w1, nid) <==> knows(m0, w0, nid))
            &&& forall|nid: u64| knows(m0, w0, nid) ==> #[trigger] m1[nid] == m0[nid]
            &&& forall|nid: u64| knows(m0, w0, nid) ==> #[trigger] knows(m1, w1, nid)
            &&& forall|e: u64| #[trigger]
                world::population(w1).contains(e) && !world::population(w0).contains(e)
                    ==> stands_for_one(m1, w1, e)
        },
    decreases updates.len(),
{
    if updates.len() > 0 {
        let rest = updates.drop_last();
        let last = updates.last();
        assert(updates[updates.len() - 1] == last);
        assert(distinct(rest)) by {
            assert forall|i: int, j: int| 0 <= i < j < rest.len() implies (#[trigger] rest[i]).nid
                != (#[trigger] rest[j]).nid by {
                assert(updates[i].nid != updates[j].nid);
            }
        }
        assert(!tells_of(rest, last.nid)) by {
            if tells_of(rest, last.nid) {
                let i = choose|i: int| 0 <= i < rest.len() && (#[trigger] rest[i]).nid == last.nid;
                assert(updates[i].nid != updates[updates.len() - 1].nid);
            }
        }
        assert forall|nid: u64| !tells_of(updates, nid) implies nid != last.nid && !#[trigger]
        tells_of(rest, nid) by {
            if tells_of(rest, nid) {
                let i = choose|i: int| 0 <= i < rest.len() && (#[trigger] rest[i]).nid == nid;
                assert(updates[i].nid == nid);
            }
        }
        if result is Err && replication::updates_followed::<M::Client>(
            rest,
            m0,
            w0,
            m1,
            w1,
            result,
        ) {
            lemma_room::<M>(rest, m0, w0, m1, w1, result);
        } else {
            let (m, w) = choose|m: Map<u64, u64>, w: hecs::World|
                {
                    &&& replication::updates_followed::<M::Client>(rest, m0, w0, m, w, Ok(()))
                    &&& #[trigger] replication::update_followed::<M::Client>(
                        m,
                        w,
                        m1,
                        w1,
                        last,
                        result,
                    )
                };
            lemma_updates_keep::<M>(rest, m0, w0, m, w, Ok(()));
            lemma_room::<M>(rest, m0, w0, m, w, Ok(()));
            assert(knows(m, w, last.nid) <==> knows(m0, w0, last.nid));
            if result is Ok {
                assert(result->Ok_0 == ());
                assert(result == Ok::<(), ReplicateError>(()));
                lemma_update_known::<M>(m, w, m1, w1, last);
                assert forall|nid: u64| knows(m0, w0, nid) implies #[trigger] m1[nid] == m0[nid] by {
                    assert(m[nid] == m0[nid]);
                    assert(knows(m, w, nid));
                }
                assert forall|nid: u64| knows(m0, w0, nid) implies #[trigger] knows(
                    m1,
                    w1,
                    nid,
                ) by {
                    assert(knows(m, w, nid));
                }
                assert forall|nid: u64| !tells_of(updates, nid) implies (#[trigger] knows(
                    m1,
                    w1,
                    nid,
                ) <==> knows(m0, w0, nid)) by {
                    assert(!tells_of(rest, nid));
                    assert(knows(m, w, nid) <==> knows(m0, w0, nid));
                }
                assert forall|e: u64| #[trigger]
                    world::population(w1).contains(e) && !world::population(w0).contains(
                        e,
                    ) implies stands_for_one(m1, w1, e) by {
                    if world::population(w).contains(e) {
                        assert(stands_for_one(m, w, e));
                        let nid = choose|nid: u64| #[trigger] knows(m, w, nid) && m[nid] == e;
                        assert(m1[nid] == m[nid]);
                        assert(knows(m1, w1, nid));
                    } else {
                        assert(knows(m1, w1, last.nid) && m1[last.nid] == e);
                    }
                }
            } else {
                let (between, entity) = choose|
                    between: hecs::World,
                    entity: Result<u64, MapperError>,
                | #[trigger]
                    nid::obtained(m, w, m1, between, last.nid, entity) && match entity {
                        Err(err) => w1 == between && result == Err::<(), _>(
                            ReplicateError::Mapper(err),
                        ),
                        Ok(e) => M::Client::followed(between, w1, e, last.tracks) && result is Ok,
                    };
                assert(nid::sound(m, w));
                nid::mapping_stays_sound(m, w, m1, between, last.nid, entity);
                assert(world::entity_count(w) == u32::MAX);
                if knows(m, w, last.nid) {
                    assert(world::net_ids(w).contains_key(m[last.nid]));
                    assert(world::entities(w).contains(m[last.nid]));
                }
            }
        }
    }
}

proof fn lemma_wear<M: Mirror>(
    ids: Seq<NetId>,
    m: Map<u64, u64>,
    w0: hecs::World,
    w1: hecs::World,
    result: Result<(), ReplicateError>,
)
    requires
        undisturbed::<M>(),
        sane(w0),
        settled(m, w0),
        nid::one_to_one(m),
        ids.no_duplicates(),
        replication::removals_followed(ids, m, w0, w1, result),
    ensures
        result is Err <==> worn_out(ids, m, w0),
        world::population(w1).subset_of(world::population(w0)),
    decreases ids.len(),
{
    if ids.len() > 0 {
        let rest = ids.drop_last();
        let last = ids.last();
        assert(ids[ids.len() - 1] == last);
        assert forall|k: int| 0 <= k < rest.len() implies rest[k] == #[trigger] ids[k] by {
        }
        if worn_out(rest, m, w0) {
            let k = choose|k: int|
                0 <= k < rest.len() && knows(m, w0, (#[trigger] rest[k]).0) && m[rest[k].0]
                    >= world::LAST_GENERATION;
            assert(ids[k] == rest[k]);
        }
        if result is Err && replication::removals_followed(rest, m, w0, w1, result) {
            lemma_wear::<M>(rest, m, w0, w1, result);
        } else {
            let w = choose|w: hecs::World|
                {
                    &&& replication::removals_followed(rest, m, w0, w, Ok(()))
                    &&& #[trigger] replication::removal_followed(m, w, w1, last, result)
                };
            lemma_wear::<M>(rest, m, w0, w, Ok(()));
            removed_are_gone::<M>(rest, m, w0, w);
            if knows(m, w0, last.0) {
                assert forall|i: int|
                    0 <= i < rest.len() && m.contains_key(
                        (#[trigger] rest[i]).0,
                    ) implies m[rest[i].0] != m[last.0] by {
                    assert(ids[i] != ids[ids.len() - 1]);
                }
                assert(kept::<M>(m, w0, m, w, last.0));
            }
            assert(knows(m, w, last.0) <==> knows(m, w0, last.0));
            if m.contains_key(last.0) {
                if knows(m, w, last.0) {
                    assert(world::net_ids(w).contains_key(m[last.0]));
                    assert(world::entities(w).contains(m[last.0]));
                } else {
                    assert(world::spent(w).contains(m[last.0]));
                    assert(world::dead_handles(w).contains(m[last.0]));
                }
            }
            if worn_out(ids, m, w0) {
                let k = choose|k: int|
                    0 <= k < ids.len() && knows(m, w0, (#[trigger] ids[k]).0) && m[ids[k].0]
                        >= world::LAST_GENERATION;
                if k < rest.len() {
                    assert(rest[k] == ids[k]);
                    assert(worn_out(rest, m, w0));
                }
            }
        }
    }
}

/// What comes of a message depends on the room in the client's world and on its handles alone.
proof fn lemma_outcome<M: Mirror>(
    pack: replicas::WorldReplicaPack,
    replicas: Seq<Replica<<M::Server as ServerReplicator>::Histories>>,
    mapper: nid::EntityMapper,
    back: u64,
    w: hecs::World,
    m0: Map<u64, u64>,
    w0: hecs::World,
    m1: Map<u64, u64>,
    w1: hecs::World,
    result: Result<(), ReplicateError>,
)
    requires
        undisturbed::<M>(),
        replicas::packed::<M::Server>(pack, replicas, mapper, back, w),
        replicas::consistent(replicas, mapper@),
        sane(w0),
        settled(m0, w0),
        nid::one_to_one(m0),
        replication::message_followed::<M::Client>(
            replicas::updates::<M::Server>(replicas, back, w),
            pack.removed@,
            m0,
            w0,
            m1,
            w1,
            result,
        ),
    ensures
        result == outcome(
            replicas::updates::<M::Server>(replicas, back, w),
            pack.removed@,
            m0,
            w0,
        ),
        result is Ok ==> forall|e: u64| #[trigger]
            world::population(w1).contains(e) ==> world::population(w0).contains(e)
                || stands_for_one(m1, w1, e),
{
    let updates = replicas::updates::<M::Server>(replicas, back, w);
    let ids = pack.removed@;
    lemma_updates_distinct::<M::Server>(replicas, back, w);
    assert(result is Ok ==> result->Ok_0 == ());
    if result is Err && replication::updates_followed::<M::Client>(
        updates,
        m0,
        w0,
        m1,
        w1,
        result,
    ) {
        lemma_updates_keep::<M>(updates, m0, w0, m1, w1, result);
        lemma_room::<M>(updates, m0, w0, m1, w1, result);
    } else {
        let wm = choose|wm: hecs::World|
            {
                &&& #[trigger] replication::updates_followed::<M::Client>(
                    updates,
                    m0,
                    w0,
                    m1,
                    wm,
                    Ok(()),
                )
                &&& replication::removals_followed(ids, m1, wm, w1, result)
            };
        lemma_updates_keep::<M>(updates, m0, w0, m1, wm, Ok(()));
        lemma_room::<M>(updates, m0, w0, m1, wm, Ok(()));
        lemma_removals_fail(ids, m1, wm, w1, result);
        lemma_wear::<M>(ids, m1, wm, w1, result);
        assert forall|k: int| 0 <= k < ids.len() implies (knows(m1, wm, (#[trigger] ids[k]).0)
            <==> knows(m0, w0, ids[k].0)) && (knows(m0, w0, ids[k].0) ==> m1[ids[k].0]
            == m0[ids[k].0]) by {
            assert(ids.contains(ids[k]));
            assert(mapper.removed(w).contains(ids[k].0));
            if tells_of(updates, ids[k].0) {
                let i = choose|i: int|
                    0 <= i < replicas.len() && replicas::replicated(w, #[trigger] replicas[i])
                        && replicas[i].nid.0 == ids[k].0;
                assert(mapper@.contains_pair(replicas[i].nid.0, replicas[i].entity));
                assert(!world::dead_handles(w).contains(replicas[i].entity));
            }
        }
        if worn_out(ids, m1, wm) {
            let k = choose|k: int|
                0 <= k < ids.len() && knows(m1, wm, (#[trigger] ids[k]).0) && m1[ids[k].0]
                    >= world::LAST_GENERATION;
            assert(knows(m0, w0, ids[k].0));
        }
        if worn_out(ids, m0, w0) {
            let k = choose|k: int|
                0 <= k < ids.len() && knows(m0, w0, (#[trigger] ids[k]).0) && m0[ids[k].0]
                    >= world::LAST_GENERATION;
            assert(knows(m1, wm, ids[k].0));
        }
        if result is Ok {
            assert forall|e: u64| #[trigger] world::population(w1).contains(e) implies
                world::population(w0).contains(e) || stands_for_one(m1, w1, e) by {
                if !world::population(w0).contains(e) {
                    assert(world::population(wm).contains(e));
                    assert(stands_for_one(m1, wm, e));
                    lemma_survivors_stand(ids, m1, wm, w1, e);
                }
            }
        }
    }
}

/// An entity that is left after removals stands for what it stood for.
proof fn lemma_survivors_stand(
    ids: Seq<NetId>,
    m: Map<u64, u64>,
    w0: hecs::World,
    w1: hecs::World,
    e: u64,
)
    requires
        replication::removals_followed(ids, m, w0, w1, Ok(())),
        stands_for_one(m, w0, e),
        world::population(w1).contains(e),
    ensures
        stands_for_one(m, w1, e),
    decreases ids.len(),
{
    if ids.len() > 0 {
        let w = choose|w: hecs::World|
            {
                &&& replication::removals_followed(ids.drop_last(), m, w0, w, Ok(()))
                &&& #[trigger] replication::removal_followed(m, w, w1, ids.last(), Ok(()))
            };
        lemma_survivors_stand(ids.drop_last(), m, w0, w, e);
        let nid = choose|nid: u64| #[trigger] knows(m, w, nid) && m[nid] == e;
        assert(knows(m, w1, nid));
    }
}

proof fn lemma_removals_fail(
    ids: Seq<NetId>,
    m: Map<u64, u64>,
    w0: hecs::World,
    w1: hecs::World,
    result: Result<(), ReplicateError>,
)
    requires
        replication::removals_followed(ids, m, w0, w1, result),
    ensures
        result matches Err(err) ==> err == ReplicateError::HandlesExhausted,
    decreases ids.len(),
{
    if ids.len() > 0 {
        if result is Err && replication::removals_followed(ids.drop_last(), m, w0, w1, result) {
            lemma_removals_fail(ids.drop_last(), m, w0, w1, result);
        }
    }
}

proof fn lemma_message_converges<M: Mirror>(
    pack: replicas::WorldReplicaPack,
    replicas: Seq<Replica<<M::Server as ServerReplicator>::Histories>>,
    mapper: nid::EntityMapper,
    back: u64,
    w: hecs::World,
    m0: Map<u64, u64>,
    w0: hecs::World,
    m1: Map<u64, u64>,
    w1: hecs::World,
)
    requires
        undisturbed::<M>(),
        M::Server::count() > 0,
        replicas::packed::<M::Server>(pack, replicas, mapper, back, w),
        replicas::consistent(replicas, mapper@),
        forall|i: int|
            0 <= i < replicas.len() && replicas::replicated(w, #[trigger] replicas[i]) ==> M::valid(
                w,
                replicas[i].entity,
            ),
        up_to_date::<M>(replicas, back, w, m0, w0),
        sane(w0),
        settled(m0, w0),
        nid::one_to_one(m0),
        replication::message_followed::<M::Client>(
            replicas::updates::<M::Server>(replicas, back, w),
            pack.removed@,
            m0,
            w0,
            m1,
            w1,
            Ok(()),
        ),
    ensures
        mirrored::<M>(replicas, w, m1, w1),
        forall|nid: u64| #[trigger] mapper.removed(w).contains(nid) ==> !knows(m1, w1, nid),
        forall|nid: u64|
            knows(m0, w0, nid) && absent(replicas, w, nid) && !mapper.removed(w).contains(nid)
                ==> #[trigger] kept::<M>(m0, w0, m1, w1, nid),
        forall|e: u64| #[trigger] own(m0, w0, e) ==> own(m1, w1, e) && M::same(w0, w1, e),
        sane(w1),
        settled(m1, w1),
        nid::one_to_one(m1),
{
    let updates = replicas::updates::<M::Server>(replicas, back, w);
    let ids = pack.removed@;
    let wm = choose|wm: hecs::World|
        {
            &&& #[trigger] replication::updates_followed::<M::Client>(
                updates,
                m0,
                w0,
                m1,
                wm,
                Ok(()),
            )
            &&& replication::removals_followed(ids, m1, wm, w1, Ok(()))
        };
    worlds_converge::<M>(replicas, back, w, m0, w0, m1, wm);
    lemma_updates_keep::<M>(updates, m0, w0, m1, wm, Ok(()));
    removed_are_gone::<M>(ids, m1, wm, w1);
    assert forall|e: u64| #[trigger] own(m0, w0, e) implies own(m1, w1, e) && M::same(
        w0,
        w1,
        e,
    ) by {
        lemma_updates_keep_own::<M>(updates, m0, w0, m1, wm, e);
        lemma_removals_keep_own::<M>(ids, m1, wm, w1, e);
        M::same_composes(w0, wm, w1, e);
    }
    assert forall|nid: u64|
        knows(m1, wm, nid) && !mapper.removed(w).contains(nid) implies #[trigger] kept::<M>(
        m1,
        wm,
        m1,
        w1,
        nid,
    ) by {
        assert forall|k: int|
            0 <= k < ids.len() && m1.contains_key((#[trigger] ids[k]).0) implies m1[ids[k].0]
            != m1[nid] by {
            assert(ids.contains(ids[k]));
            assert(mapper.removed(w).contains(ids[k].0));
            assert(ids[k].0 != nid);
        }
    }
    assert forall|i: int|
        0 <= i < replicas.len() && replicas::replicated(w, #[trigger] replicas[i]) implies {
        &&& knows(m1, w1, replicas[i].nid.0)
        &&& M::shown(w, replicas[i].entity, w1, m1[replicas[i].nid.0])
    } by {
        let replica = replicas[i];
        let nid = replica.nid.0;
        assert(knows(m1, wm, nid));
        assert(mapper@.contains_pair(nid, replica.entity));
        assert(!mapper.removed(w).contains(nid));
        assert(kept::<M>(m1, wm, m1, w1, nid));
        M::same_is_same(replica.histories, back, w, replica.entity, wm, w1, m1[nid]);
    }
    assert forall|nid: u64|
        knows(m0, w0, nid) && absent(replicas, w, nid) && !mapper.removed(w).contains(
            nid,
        ) implies #[trigger] kept::<M>(m0, w0, m1, w1, nid) by {
        assert(kept::<M>(m0, w0, m1, wm, nid));
        assert(kept::<M>(m1, wm, m1, w1, nid));
        M::same_composes(w0, wm, w1, m0[nid]);
    }
    assert forall|nid: u64| #[trigger] mapper.removed(w).contains(nid) implies !knows(
        m1,
        w1,
        nid,
    ) by {
        assert(ids.contains(NetId(nid)) <==> mapper.removed(w).contains(NetId(nid).0));
        let k = choose|k: int| 0 <= k < ids.len() && ids[k] == NetId(nid);
        assert(!knows(m1, w1, ids[k].0));
    }
}

/// The descriptors of both sides for the [`PlayerId`] component.
pub struct PlayerIdPair;

impl Pair for PlayerIdPair {
    type S = server::PlayerIdDescriptor;

    type C = client::PlayerIdDescriptor;

    open spec fn seen(w: hecs::World, entity: u64) -> Option<PlayerId> {
        <server::PlayerIdDescriptor as server::Descriptor>::state(w, entity)
    }
}

/// Server and client agree on players. One with the number zero, which no id generator hands out,
/// could not be read.
pub proof fn players_are_faithful(w: hecs::World, entity: u64)
    requires
        state::<PlayerIdPair>(w, entity) != Some(PlayerId(0)),
    ensures
        faithful::<PlayerIdPair>(w, entity),
{
    if state::<PlayerIdPair>(w, entity) is Some {
        let player = world::player_ids(w)[entity];
        let pack = codec::varint(player);
        codec::varint_round_trip(player, Seq::empty());
        assert(pack + Seq::<u8>::empty() =~= pack);
        assert forall|rest: Seq<u8>| #[trigger]
            <client::PlayerIdDescriptor as client::Descriptor>::decoded(pack + rest) == Some(
                (
                    <client::PlayerIdDescriptor as client::Descriptor>::decoded(pack)->Some_0.0,
                    pack.len(),
                ),
            ) by {
            codec::varint_round_trip(player, rest);
        }
    }
}

} // verus!
