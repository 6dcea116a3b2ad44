//! What the operations of a client mean: the laws of commands and updates, stated of what the
//! functions are given and give.

use crate::client::{self, BadMessage, Descriptor, PlayerIdDescriptor, TrackReplicate};
use crate::client::replicator::{self, ReplicateError, Replicator};
use crate::client::system::{
    self, ClientBuilder, ClientSystem, DummyLocalPlayer, LocalPlayer, NoLocalPlayerType,
    PlayerIdCollision, RunError, SentInput,
};
use crate::client_server::{
    ClientError, ClientMessage, Connected, InputStep, PlayerId, ServerMessage,
};
use crate::codec;
use crate::lloth_core::client_server::ClientSession;
use crate::mask;
use crate::nid::{self, EntityMapper, MapperError, NetId};
use crate::replication;
use crate::schema::WorldUnpacked;
use crate::server::replicas::{self, EntityUpdate};
use crate::types;
use crate::world;
use std::any::TypeId;
use std::collections::HashSet;
use vstd::prelude::*;

verus! {

/// From `w0` to `w1` the commands of all entities were taken that have a player of `controlled` and
/// an id, each once, and of no other. `inputs` are what they gave, each with its player and its
/// entity's id.
///
/// `rows` are all entities that have a player and an id: handle, player, id. `ws` are the worlds
/// between them, `commands` is what each gave, and `at` tells where in `rows` each input comes
/// from.
pub open spec fn commands_are_sent<P: LocalPlayer>(
    controlled: Set<u64>,
    w0: hecs::World,
    w1: hecs::World,
    inputs: Seq<(PlayerId, NetId, Seq<u8>)>,
    rows: Seq<(u64, u64, u64)>,
    ws: Seq<hecs::World>,
    commands: Seq<Option<Seq<u8>>>,
    at: Seq<int>,
) -> bool {
    &&& forall|i: int, j: int|
        0 <= i < j < rows.len() ==> (#[trigger] rows[i]).0 != (#[trigger] rows[j]).0
    &&& forall|e: u64|
        world::player_ids(w0).contains_key(e) && #[trigger] world::net_ids(w0).contains_key(e)
            ==> exists|k: int| 0 <= k < rows.len() && (#[trigger] rows[k]).0 == e
    &&& forall|k: int|
        0 <= k < rows.len() ==> {
            &&& world::player_ids(w0).contains_pair((#[trigger] rows[k]).0, rows[k].1)
            &&& world::net_ids(w0).contains_pair(rows[k].0, rows[k].2)
        }
    &&& ws.len() == rows.len() + 1
    &&& commands.len() == rows.len()
    &&& ws[0] == w0
    &&& ws.last() == w1
    &&& forall|k: int|
        0 <= k < rows.len() ==> {
            let (entity, player, _) = #[trigger] rows[k];
            &&& controlled.contains(player) ==> P::taken(ws[k], ws[k + 1], entity, commands[k])
            &&& !controlled.contains(player) ==> ws[k + 1] == ws[k] && commands[k] is None
        }
    &&& at.len() == inputs.len()
    &&& forall|i: int, j: int| 0 <= i < j < at.len() ==> #[trigger] at[i] < #[trigger] at[j]
    &&& forall|j: int|
        0 <= j < inputs.len() ==> {
            let k = #[trigger] at[j];
            &&& 0 <= k < rows.len()
            &&& commands[k] == Some(inputs[j].2)
            &&& inputs[j].0 == PlayerId(rows[k].1)
            &&& inputs[j].1 == NetId(rows[k].2)
        }
    &&& forall|k: int|
        0 <= k < commands.len() && #[trigger] commands[k] is Some ==> exists|j: int|
            0 <= j < at.len() && #[trigger] at[j] == k
}

/// What `inputs` tell: player, id and bytes of each.
pub open spec fn told(inputs: Seq<(PlayerId, SentInput)>) -> Seq<(PlayerId, NetId, Seq<u8>)> {
    Seq::new(
        inputs.len(),
        |i: int| (inputs[i].0, inputs[i].1.0, inputs[i].1.1.input@),
    )
}

/// What `inputs` tell, each of which names a player.
pub open spec fn told_by_name(inputs: Seq<(Option<PlayerId>, SentInput)>) -> Seq<
    (PlayerId, NetId, Seq<u8>),
> {
    Seq::new(
        inputs.len(),
        |i: int| (inputs[i].0->Some_0, inputs[i].1.0, inputs[i].1.1.input@),
    )
}

proof fn lemma_taken<P: LocalPlayer>(
    controlled: Set<u64>,
    rows: Seq<(u64, u64, u64)>,
    w0: hecs::World,
    w1: hecs::World,
    inputs: Seq<(PlayerId, NetId, Seq<u8>)>,
) -> (how: (Seq<hecs::World>, Seq<Option<Seq<u8>>>, Seq<int>))
    requires
        system::inputs_taken::<P>(controlled, rows, w0, w1, inputs),
    ensures
        how.0.len() == rows.len() + 1,
        how.1.len() == rows.len(),
        how.0[0] == w0,
        how.0.last() == w1,
        forall|k: int|
            0 <= k < rows.len() ==> {
                let (entity, player, _) = #[trigger] rows[k];
                &&& controlled.contains(player) ==> P::taken(
                    how.0[k],
                    how.0[k + 1],
                    entity,
                    how.1[k],
                )
                &&& !controlled.contains(player) ==> how.0[k + 1] == how.0[k] && how.1[k] is None
            },
        how.2.len() == inputs.len(),
        forall|i: int, j: int|
            0 <= i < j < how.2.len() ==> #[trigger] how.2[i] < #[trigger] how.2[j],
        forall|j: int|
            0 <= j < inputs.len() ==> {
                let k = #[trigger] how.2[j];
                &&& 0 <= k < rows.len()
                &&& how.1[k] == Some(inputs[j].2)
                &&& inputs[j].0 == PlayerId(rows[k].1)
                &&& inputs[j].1 == NetId(rows[k].2)
            },
        forall|k: int|
            0 <= k < how.1.len() && #[trigger] how.1[k] is Some ==> exists|j: int|
                0 <= j < how.2.len() && #[trigger] how.2[j] == k,
    decreases rows.len(),
{
    if rows.len() == 0 {
        (seq![w0], Seq::empty(), Seq::empty())
    } else {
        let (entity, player, nid) = rows.last();
        let rest = rows.drop_last();
        let n = rest.len() as int;
        assert forall|k: int| 0 <= k < rest.len() implies rest[k] == #[trigger] rows[k] by {
        }
        if controlled.contains(player) {
            let (w, given) = choose|w: hecs::World, given: Option<Seq<u8>>| #[trigger]
                P::taken(w, w1, entity, given) && match given {
                    None => system::inputs_taken::<P>(controlled, rest, w0, w, inputs),
                    Some(bytes) => {
                        &&& inputs.len() > 0
                        &&& inputs.last() == (PlayerId(player), NetId(nid), bytes)
                        &&& system::inputs_taken::<P>(
                            controlled,
                            rest,
                            w0,
                            w,
                            inputs.drop_last(),
                        )
                    },
                };
            let before = if given is Some {
                inputs.drop_last()
            } else {
                inputs
            };
            let (ws, commands, at) = lemma_taken::<P>(controlled, rest, w0, w, before);
            let all = commands.push(given);
            let places = if given is Some {
                at.push(n)
            } else {
                at
            };
            assert forall|k: int| 0 <= k < all.len() && #[trigger] all[k] is Some implies exists|
                j: int,
            | 0 <= j < places.len() && #[trigger] places[j] == k by {
                if k < n {
                    assert(commands[k] is Some);
                    let j = choose|j: int| 0 <= j < at.len() && #[trigger] at[j] == k;
                    assert(places[j] == k);
                } else {
                    assert(places[places.len() - 1] == k);
                }
            }
            assert forall|j: int| 0 <= j < inputs.len() implies {
                let k = #[trigger] places[j];
                &&& 0 <= k < rows.len()
                &&& all[k] == Some(inputs[j].2)
                &&& inputs[j].0 == PlayerId(rows[k].1)
                &&& inputs[j].1 == NetId(rows[k].2)
            } by {
                if j < before.len() {
                    assert(at[j] == places[j]);
                    assert(before[j] == inputs[j]);
                } else {
                    assert(inputs[j] == inputs.last());
                }
            }
            (ws.push(w1), all, places)
        } else {
            let (ws, commands, at) = lemma_taken::<P>(controlled, rest, w0, w1, inputs);
            let all = commands.push(None);
            assert forall|k: int| 0 <= k < all.len() && #[trigger] all[k] is Some implies exists|
                j: int,
            | 0 <= j < at.len() && #[trigger] at[j] == k by {
                assert(commands[k] is Some);
            }
            (ws.push(w1), all, at)
        }
    }
}

proof fn lemma_sent<P: LocalPlayer>(
    controlled: Set<u64>,
    w0: hecs::World,
    w1: hecs::World,
    inputs: Seq<(PlayerId, NetId, Seq<u8>)>,
    rows: Seq<(u64, u64, u64)>,
)
    requires
        system::player_rows(rows, w0),
        system::inputs_taken::<P>(controlled, rows, w0, w1, inputs),
    ensures
        exists|
            rows: Seq<(u64, u64, u64)>,
            ws: Seq<hecs::World>,
            commands: Seq<Option<Seq<u8>>>,
            at: Seq<int>,
        | #[trigger]
            commands_are_sent::<P>(controlled, w0, w1, inputs, rows, ws, commands, at),
{
    let (ws, commands, at) = lemma_taken::<P>(controlled, rows, w0, w1, inputs);
    assert forall|k: int| 0 <= k < rows.len() implies {
        &&& world::player_ids(w0).contains_pair((#[trigger] rows[k]).0, rows[k].1)
        &&& world::net_ids(w0).contains_pair(rows[k].0, rows[k].2)
    } by {
        let (entity, player, nid) = rows[k];
        assert(rows.contains((entity, player, nid)));
    }
    assert forall|i: int, j: int| 0 <= i < j < rows.len() implies (#[trigger] rows[i]).0 != (
    #[trigger] rows[j]).0 by {
        assert(world::player_ids(w0).contains_pair(rows[i].0, rows[i].1));
        assert(world::player_ids(w0).contains_pair(rows[j].0, rows[j].1));
        assert(rows[i] != rows[j]);
    }
    assert forall|e: u64|
        world::player_ids(w0).contains_key(e) && #[trigger] world::net_ids(w0).contains_key(
            e,
        ) implies exists|k: int| 0 <= k < rows.len() && (#[trigger] rows[k]).0 == e by {
        let row = (e, world::player_ids(w0)[e], world::net_ids(w0)[e]);
        assert(rows.contains(row));
        let k = choose|k: int| 0 <= k < rows.len() && rows[k] == row;
        assert(rows[k].0 == e);
    }
    assert(commands_are_sent::<P>(controlled, w0, w1, inputs, rows, ws, commands, at));
}

/// The commands of every entity that a controlled player has and that has an id are taken, once,
/// and sent for that player and that id; no other inputs are sent. It does not matter how many
/// players there are.
pub proof fn commands_of_all_players_are_sent<P: LocalPlayer>(
    controlled: HashSet<u64>,
    world: &mut hecs::World,
    inputs: Vec<(PlayerId, SentInput)>,
)
    requires
        call_ensures(system::send_inputs::<P>, (&controlled, world), inputs),
    ensures
        exists|
            rows: Seq<(u64, u64, u64)>,
            ws: Seq<hecs::World>,
            commands: Seq<Option<Seq<u8>>>,
            at: Seq<int>,
        | #[trigger]
            commands_are_sent::<P>(
                controlled@,
                *old(world),
                *final(world),
                told(inputs@),
                rows,
                ws,
                commands,
                at,
            ),
{
    let views = told(inputs@);
    assert(views =~= system::inputs_view(inputs@));
    let rows = choose|rows: Seq<(u64, u64, u64)>| #[trigger]
        system::player_rows(rows, *old(world)) && system::inputs_taken::<P>(
            controlled@,
            rows,
            *old(world),
            *final(world),
            system::inputs_view(inputs@),
        );
    lemma_sent::<P>(controlled@, *old(world), *final(world), views, rows);
}

/// A client with a session sends one message with the commands of all entities of its players. It
/// tells the client's step and what it has seen of the server. Without a session nothing is taken.
pub proof fn clients_send_all_their_commands<C, P: LocalPlayer, R: Replicator, A>(
    client: ClientSystem<C, P, R>,
    world: &mut hecs::World,
    message: Option<ClientMessage<InputStep, A, SentInput>>,
)
    requires
        call_ensures(ClientSystem::<C, P, R>::send_inputs::<A>, (&client, world), message),
    ensures
        message is Some <==> client.link() is Some,
        message is None ==> *final(world) == *old(world),
        message matches Some(message) ==> (message matches ClientMessage::Inputs { at, inputs } && {
            &&& at.step == client.link()->Some_0.step()
            &&& at.next_update_step == client.link()->Some_0.next_update_step()
            &&& forall|k: int| 0 <= k < inputs@.len() ==> (#[trigger] inputs@[k]).0 is Some
            &&& exists|
                rows: Seq<(u64, u64, u64)>,
                ws: Seq<hecs::World>,
                commands: Seq<Option<Seq<u8>>>,
                at: Seq<int>,
            | #[trigger]
                commands_are_sent::<P>(
                    client.controlled(),
                    *old(world),
                    *final(world),
                    told_by_name(inputs@),
                    rows,
                    ws,
                    commands,
                    at,
                )
        }),
{
    if let Some(message) = message {
        let sent = message->inputs@;
        let (inputs, rows) = choose|
            inputs: Seq<(PlayerId, SentInput)>,
            rows: Seq<(u64, u64, u64)>,
        |
            {
                &&& sent == crate::client_server::named(inputs)
                &&& #[trigger] system::player_rows(rows, *old(world))
                &&& system::inputs_taken::<P>(
                    client.controlled(),
                    rows,
                    *old(world),
                    *final(world),
                    #[trigger] system::inputs_view(inputs),
                )
            };
        let views = told_by_name(sent);
        assert(views =~= system::inputs_view(inputs));
        lemma_sent::<P>(client.controlled(), *old(world), *final(world), views, rows);
    }
}

/// A player that was added is controlled from then on, and those before it still are. The second
/// player under one id is a collision.
pub proof fn added_players_are_controlled<C, P, R>(
    client: &mut ClientSystem<C, P, R>,
    id: PlayerId,
    result: Result<PlayerId, PlayerIdCollision>,
)
    requires
        call_ensures(ClientSystem::<C, P, R>::add_player, (client, id), result),
    ensures
        forall|pid: u64| #[trigger]
            final(client).controlled().contains(pid) <==> {
                ||| pid == id.0
                ||| old(client).controlled().contains(pid)
            },
        result is Ok <==> !old(client).controlled().contains(id.0),
        result matches Ok(pid) ==> pid == id,
        result matches Err(collision) ==> collision.0 == id,
        final(client).link() == old(client).link(),
        final(client).mapper() == old(client).mapper(),
{
}

/// What a client does with what came from the server. An update is applied, makes a step, and is
/// what the client tells to have seen from then on. Where nothing came the step is made and the
/// exchange is over. Anything else fails, and changes nothing.
pub proof fn updates_are_taken<'a, C, P: LocalPlayer, R: Replicator, J, E>(
    client: &mut ClientSystem<C, P, R>,
    received: Result<Option<ServerMessage<Connected, J, WorldUnpacked<'a>>>, E>,
    world: &mut hecs::World,
    result: Result<bool, RunError<E>>,
)
    requires
        call_ensures(
            ClientSystem::<C, P, R>::receive::<J, E>,
            (client, received, world),
            result,
        ),
    ensures
        final(client).controlled() == old(client).controlled(),
        final(client).link() is Some,
        ({
            let s0 = old(client).link()->Some_0;
            let s1 = final(client).link()->Some_0;
            &&& s1.link() == s0.link()
            &&& received matches Ok(Some(ServerMessage::Updates { server_step, updates })) ==> {
                &&& s1.step() == s0.step() + 1
                &&& s1.next_update_step() == server_step + 1
                &&& result == Ok::<bool, RunError<E>>(true) || (result matches Err(
                    RunError::Replicate(_),
                ))
                &&& replicator::message_applied::<(R, PlayerIdDescriptor)>(
                    updates.updated as nat,
                    updates.removed as nat,
                    old(client).mapper()@,
                    *old(world),
                    final(client).mapper()@,
                    *final(world),
                    updates.raw@,
                    (match result {
                        Err(RunError::Replicate(err)) => Err(err),
                        _ => Ok(()),
                    }),
                )
            }
            &&& !(received matches Ok(Some(ServerMessage::Updates { .. }))) ==> {
                &&& s1.next_update_step() == s0.next_update_step()
                &&& final(client).mapper() == old(client).mapper()
                &&& *final(world) == *old(world)
            }
            &&& received matches Ok(None) ==> s1.step() == s0.step() + 1 && result == Ok::<
                bool,
                RunError<E>,
            >(false)
            &&& received matches Ok(Some(ServerMessage::Connected(_))) ==> s1.step() == s0.step()
                && result == Err::<bool, RunError<E>>(
                RunError::Session(ClientError::UnexpectedMessage),
            )
            &&& received matches Ok(Some(ServerMessage::PlayerJoined { .. })) ==> s1.step()
                == s0.step() && result == Err::<bool, RunError<E>>(
                RunError::Session(ClientError::UnexpectedMessage),
            )
            &&& received matches Err(source) ==> s1.step() == s0.step() && result == Err::<
                bool,
                RunError<E>,
            >(RunError::Session(ClientError::ChannelError { source }))
        }),
{
}

/// What one descriptor does with its slot: new state that can be read is inserted where the entity
/// has none and modified where it has; removed state is removed where there is any; otherwise the
/// world stays. It fails exactly where new state cannot be read. The position moves on by as many
/// bytes as the state takes.
pub proof fn slots_are_followed<T: Descriptor>(
    track: TrackReplicate,
    entity: u64,
    world: &mut hecs::World,
    input: &[u8],
    pos: usize,
    result: Result<usize, BadMessage>,
)
    requires
        pos <= input@.len(),
        call_ensures(client::replicate_one::<T>, (track, entity, world, input, pos), result),
    ensures
        ({
            let read = T::decoded(input@.skip(pos as int));
            let present = T::has(*old(world), entity);
            &&& result is Err <==> track is Modified && read is None
            &&& result matches Err(err) ==> err is InvalidBincode
            &&& result matches Ok(end) ==> end == pos + (if track is Modified {
                read->Some_0.1 as int
            } else {
                0
            })
            &&& track is Modified && read is Some && present ==> T::modified(
                *old(world),
                *final(world),
                entity,
                read->Some_0.0,
            )
            &&& track is Modified && read is Some && !present ==> T::inserted(
                *old(world),
                *final(world),
                entity,
                read->Some_0.0,
            )
            &&& track is Removed && present ==> T::removed(*old(world), *final(world), entity)
            &&& track is Unmodified || (track is Removed && !present) || (track is Modified
                && read is None) ==> *final(world) == *old(world)
        }),
{
}

/// A client starts without a session, players and entities. A session that it takes is its own from
/// then on, and changes nothing else of it; nor does the use of the session.
pub proof fn clients_take_sessions<C, P, R>(
    empty: ClientSystem<C, P, R>,
    client: &mut ClientSystem<C, P, R>,
    session: ClientSession<C>,
    other: &mut ClientSystem<C, P, R>,
    used: &mut Option<ClientSession<C>>,
)
    requires
        call_ensures(ClientSystem::<C, P, R>::new, (), empty),
        call_ensures(ClientSystem::<C, P, R>::connect, (client, session), ()),
        call_ensures(ClientSystem::<C, P, R>::session, (other,), used),
    ensures
        empty.link() is None,
        empty.mapper()@.dom().is_empty(),
        forall|pid: u64| !#[trigger] empty.controlled().contains(pid),
        final(client).link() == Some(session),
        final(client).mapper() == old(client).mapper(),
        final(client).controlled() == old(client).controlled(),
        *old(used) == old(other).link(),
        *final(used) == final(other).link(),
        final(other).mapper() == old(other).mapper(),
        final(other).controlled() == old(other).controlled(),
{
}

/// A descriptor is added exactly where none with its id was added before, however many there are,
/// and is then known. A player type leaves the descriptors as they are. A builder starts without
/// any, and builds clients that start empty.
pub proof fn descriptors_are_added_once<C, P: LocalPlayer, R: Replicator, T: Descriptor>(
    empty: ClientBuilder<NoLocalPlayerType, ()>,
    bare: ClientBuilder<NoLocalPlayerType, R>,
    typed: ClientBuilder<P, R>,
    builder: ClientBuilder<P, R>,
    id: TypeId,
    added: Option<ClientBuilder<P, (R, T)>>,
    built: ClientSystem<C, P, R>,
)
    requires
        call_ensures(ClientBuilder::<NoLocalPlayerType, ()>::new, (), empty),
        call_ensures(ClientBuilder::<NoLocalPlayerType, R>::with_player::<P>, (bare,), typed),
        call_ensures(ClientBuilder::<P, R>::with_descriptor_id::<T>, (builder, id), added),
        call_ensures(ClientBuilder::<P, R>::build::<C>, (&builder,), built),
    ensures
        empty.ids().len() == 0,
        typed.ids() == bare.ids(),
        added is None <==> exists|k: int|
            0 <= k < builder.ids().len() && #[trigger] builder.ids()[k] == id,
        added matches Some(added) ==> {
            &&& added.ids().len() == builder.ids().len() + 1
            &&& added.ids().last() == id
            &&& forall|k: int|
                0 <= k < builder.ids().len() ==> #[trigger] added.ids()[k] == builder.ids()[k]
        },
        built.link() is None,
        built.mapper()@.dom().is_empty(),
        forall|pid: u64| !#[trigger] built.controlled().contains(pid),
{
    if added is None {
        assert(builder.ids().contains(id));
        let k = choose|k: int| 0 <= k < builder.ids().len() && builder.ids()[k] == id;
        assert(builder.ids()[k] == id);
    }
}

/// An update whose bytes were made of `updates` and removed `ids` does what these tell, each update
/// in its order and then each removal, whatever bytes follow. It is never taken for a bad one.
pub proof fn good_updates_are_followed<'a, R: Replicator>(
    unpacked: WorldUnpacked<'a>,
    mapper: &mut EntityMapper,
    world: &mut hecs::World,
    result: Result<(), ReplicateError>,
    updates: Seq<EntityUpdate>,
    ids: Seq<NetId>,
    rest: Seq<u8>,
)
    requires
        call_ensures(replicator::replicate::<R>, (unpacked, mapper, world), result),
        replication::sendable::<R>(updates),
        forall|i: int| 0 <= i < ids.len() ==> (#[trigger] ids[i]).0 != 0,
        unpacked.updated == updates.len(),
        unpacked.removed == ids.len(),
        unpacked.raw@ == replicas::updates_bytes(updates) + replicas::ids_bytes(ids) + rest,
    ensures
        replication::message_followed::<R>(
            updates,
            ids,
            old(mapper)@,
            *old(world),
            final(mapper)@,
            *final(world),
            result,
        ),
        !(result matches Err(ReplicateError::BadMessage(_))),
{
    replication::message_arrives::<R>(
        updates,
        ids,
        rest,
        old(mapper)@,
        *old(world),
        final(mapper)@,
        *final(world),
        result,
    );
}

proof fn lemma_earlier_update<R: Replicator>(
    count: nat,
    k: nat,
    m0: Map<u64, u64>,
    w0: hecs::World,
    m1: Map<u64, u64>,
    w1: hecs::World,
    bytes: Seq<u8>,
) -> (after: (Map<u64, u64>, hecs::World))
    requires
        k <= count,
        replicator::entities_applied::<R>(count, m0, w0, m1, w1, bytes, Ok(())),
    ensures
        replicator::entities_applied::<R>(k, m0, w0, after.0, after.1, bytes, Ok(())),
    decreases count - k,
{
    if k == count {
        (m1, w1)
    } else {
        let rest = (count - 1) as nat;
        let (m, w) = choose|m: Map<u64, u64>, w: hecs::World|
            {
                &&& replicator::entities_applied::<R>(rest, m0, w0, m, w, bytes, Ok(()))
                &&& #[trigger] replicator::entity_applied::<R>(
                    m,
                    w,
                    m1,
                    w1,
                    bytes.skip(replicator::entities_read::<R>(rest, bytes)->Ok_0 as int),
                    Ok(()),
                )
            };
        lemma_earlier_update::<R>(rest, k, m0, w0, m, w, bytes)
    }
}

proof fn lemma_earlier_removal(
    count: nat,
    k: nat,
    m: Map<u64, u64>,
    w0: hecs::World,
    w1: hecs::World,
    bytes: Seq<u8>,
) -> (after: hecs::World)
    requires
        k <= count,
        replicator::removals_applied(count, m, w0, w1, bytes, Ok(())),
    ensures
        replicator::removals_applied(k, m, w0, after, bytes, Ok(())),
    decreases count - k,
{
    if k == count {
        w1
    } else {
        let rest = (count - 1) as nat;
        let w = choose|w: hecs::World|
            {
                &&& replicator::removals_applied(rest, m, w0, w, bytes, Ok(()))
                &&& #[trigger] replicator::removal_applied(
                    m,
                    w,
                    w1,
                    bytes.skip(replicator::ids_read(rest, bytes)->Ok_0 as int),
                    Ok(()),
                )
            };
        lemma_earlier_removal(rest, k, m, w0, w, bytes)
    }
}

/// An update that tells of more entities or removals than can be read of its bytes is not taken for
/// a good one: it fails.
pub proof fn updates_that_cannot_be_read_fail<'a, R: Replicator>(
    unpacked: WorldUnpacked<'a>,
    mapper: &mut EntityMapper,
    world: &mut hecs::World,
    result: Result<(), ReplicateError>,
)
    requires
        call_ensures(replicator::replicate::<R>, (unpacked, mapper, world), result),
    ensures
        result is Ok ==> {
            &&& forall|k: nat|
                k < unpacked.updated ==> replicator::header_read(
                    unpacked.raw@.skip(
                        (#[trigger] replicator::entities_read::<R>(k, unpacked.raw@))->Ok_0 as int,
                    ),
                ) is Some
            &&& forall|k: nat|
                k < unpacked.removed ==> codec::id_read(
                    unpacked.raw@.skip(
                        replicator::entities_read::<R>(
                            unpacked.updated as nat,
                            unpacked.raw@,
                        )->Ok_0 as int,
                    ).skip(
                        (#[trigger] replicator::ids_read(
                            k,
                            unpacked.raw@.skip(
                                replicator::entities_read::<R>(
                                    unpacked.updated as nat,
                                    unpacked.raw@,
                                )->Ok_0 as int,
                            ),
                        ))->Ok_0 as int,
                    ),
                ) is Some
        },
{
    let bytes = unpacked.raw@;
    let m0 = old(mapper)@;
    let m1 = final(mapper)@;
    let w0 = *old(world);
    let w1 = *final(world);
    if result is Ok {
        assert(result->Ok_0 == ());
        let wm = choose|w: hecs::World|
            {
                &&& #[trigger] replicator::entities_applied::<R>(
                    unpacked.updated as nat,
                    m0,
                    w0,
                    m1,
                    w,
                    bytes,
                    Ok(()),
                )
                &&& replicator::removals_applied(
                    unpacked.removed as nat,
                    m1,
                    w,
                    w1,
                    bytes.skip(
                        replicator::entities_read::<R>(
                            unpacked.updated as nat,
                            bytes,
                        )->Ok_0 as int,
                    ),
                    result,
                )
            };
        let tail = bytes.skip(
            replicator::entities_read::<R>(unpacked.updated as nat, bytes)->Ok_0 as int,
        );
        assert forall|k: nat| k < unpacked.updated implies replicator::header_read(
            bytes.skip((#[trigger] replicator::entities_read::<R>(k, bytes))->Ok_0 as int),
        ) is Some by {
            let (m, w) = lemma_earlier_update::<R>(
                unpacked.updated as nat,
                k + 1,
                m0,
                w0,
                m1,
                wm,
                bytes,
            );
            let (a, b) = choose|a: Map<u64, u64>, b: hecs::World|
                {
                    &&& replicator::entities_applied::<R>(k, m0, w0, a, b, bytes, Ok(()))
                    &&& #[trigger] replicator::entity_applied::<R>(
                        a,
                        b,
                        m,
                        w,
                        bytes.skip(replicator::entities_read::<R>(k, bytes)->Ok_0 as int),
                        Ok(()),
                    )
                };
        }
        assert forall|k: nat| k < unpacked.removed implies codec::id_read(
            tail.skip((#[trigger] replicator::ids_read(k, tail))->Ok_0 as int),
        ) is Some by {
            let w = lemma_earlier_removal(unpacked.removed as nat, k + 1, m1, wm, w1, tail);
            let b = choose|b: hecs::World|
                {
                    &&& replicator::removals_applied(k, m1, wm, b, tail, Ok(()))
                    &&& #[trigger] replicator::removal_applied(
                        m1,
                        b,
                        w,
                        tail.skip(replicator::ids_read(k, tail)->Ok_0 as int),
                        Ok(()),
                    )
                };
        }
    }
}

/// The first bad byte ends an update that tells of one entity at least: where its front is no id
/// and mask nothing changes, and it is a bad message.
pub proof fn updates_fail_at_the_front<'a, R: Replicator>(
    unpacked: WorldUnpacked<'a>,
    mapper: &mut EntityMapper,
    world: &mut hecs::World,
    result: Result<(), ReplicateError>,
)
    requires
        call_ensures(replicator::replicate::<R>, (unpacked, mapper, world), result),
        unpacked.updated == 1,
        codec::id_read(unpacked.raw@) is None,
    ensures
        result == Err::<(), _>(ReplicateError::BadMessage(BadMessage::InvalidBincode)),
        final(mapper)@ == old(mapper)@,
        *final(world) == *old(world),
{
    let bytes = unpacked.raw@;
    assert(bytes.skip(0) =~= bytes);
    reveal_with_fuel(replicator::entities_applied, 2);
    reveal_with_fuel(replicator::entities_read, 2);
}

/// A row applies each of its descriptors' slots, in their order, each to the bytes behind those of
/// the one before; a slot that is bad ends it.
pub proof fn rows_are_their_descriptors<R: Replicator, T: Descriptor>(
    m: u32,
    bytes: Seq<u8>,
    w0: hecs::World,
    w1: hecs::World,
    entity: u64,
)
    ensures
        <(R, T) as Replicator>::count() == R::count() + 1,
        <() as Replicator>::count() == 0,
        <() as Replicator>::read(m, bytes) == Ok::<nat, BadMessage>(0),
        <() as Replicator>::applied(w0, w1, entity, m, bytes) <==> w1 == w0,
        R::read(m, bytes) matches Err(err) ==> <(R, T) as Replicator>::read(m, bytes) == Err::<
            nat,
            BadMessage,
        >(err) && (<(R, T) as Replicator>::applied(w0, w1, entity, m, bytes) <==> R::applied(
            w0,
            w1,
            entity,
            m,
            bytes,
        )),
        R::read(m, bytes) matches Ok(n) ==> {
            let track = mask::track_at(m, R::count());
            let state = T::decoded(bytes.skip(n as int));
            &&& track is Err ==> <(R, T) as Replicator>::read(m, bytes) is Err
            &&& track == Ok::<TrackReplicate, BadMessage>(TrackReplicate::Modified) ==> match state {
                Some((_, k)) => <(R, T) as Replicator>::read(m, bytes) == Ok::<nat, BadMessage>(
                    n + k,
                ),
                None => <(R, T) as Replicator>::read(m, bytes) is Err,
            }
            &&& track matches Ok(track) ==> (!(track is Modified) ==> <(R, T) as Replicator>::read(
                m,
                bytes,
            ) == Ok::<nat, BadMessage>(n))
            &&& <(R, T) as Replicator>::applied(w0, w1, entity, m, bytes) ==> exists|
                between: hecs::World,
            | #[trigger]
                R::applied(w0, between, entity, m, bytes) && {
                    &&& track is Err ==> w1 == between
                    &&& track == Ok::<TrackReplicate, BadMessage>(TrackReplicate::Modified)
                        && state is Some && T::has(between, entity) ==> T::modified(
                        between,
                        w1,
                        entity,
                        state->Some_0.0,
                    )
                    &&& track == Ok::<TrackReplicate, BadMessage>(TrackReplicate::Modified)
                        && state is Some && !T::has(between, entity) ==> T::inserted(
                        between,
                        w1,
                        entity,
                        state->Some_0.0,
                    )
                    &&& track == Ok::<TrackReplicate, BadMessage>(TrackReplicate::Removed)
                        && T::has(between, entity) ==> T::removed(between, w1, entity)
                    &&& track == Ok::<TrackReplicate, BadMessage>(TrackReplicate::Removed)
                        && !T::has(between, entity) ==> w1 == between
                    &&& track == Ok::<TrackReplicate, BadMessage>(TrackReplicate::Unmodified) ==> w1
                        == between
                }
        },
{
}

/// What a client's descriptor does with a player: it has the number that is told, from the first
/// on, until it is removed; nothing else changes.
pub proof fn players_are_what_is_told(
    w0: hecs::World,
    w1: hecs::World,
    entity: u64,
    player: u64,
    bytes: Seq<u8>,
)
    ensures
        <PlayerIdDescriptor as Descriptor>::decoded(bytes) == codec::id_read(bytes),
        <PlayerIdDescriptor as Descriptor>::has(w0, entity) <==> world::player_ids(
            w0,
        ).contains_key(entity),
        <PlayerIdDescriptor as Descriptor>::inserted(w0, w1, entity, player) || <
            PlayerIdDescriptor as Descriptor
        >::modified(w0, w1, entity, player) ==> {
            &&& world::player_ids(w1) == world::player_ids(w0).insert(entity, player)
            &&& world::net_ids(w1) == world::net_ids(w0)
            &&& world::others(w1) == world::others(w0)
            &&& world::owned(w1) == world::owned(w0)
            &&& world::server_ids(w1) == world::server_ids(w0)
            &&& world::population(w1) == world::population(w0)
        },
        <PlayerIdDescriptor as Descriptor>::removed(w0, w1, entity) ==> {
            &&& world::player_ids(w1) == world::player_ids(w0).remove(entity)
            &&& world::net_ids(w1) == world::net_ids(w0)
            &&& world::others(w1) == world::others(w0)
            &&& world::owned(w1) == world::owned(w0)
            &&& world::server_ids(w1) == world::server_ids(w0)
            &&& world::population(w1) == world::population(w0)
        },
{
}

/// What one update, which stands at the front of `bytes`, does: an id and a mask are read; an
/// entity is had for the id; and the row does with it what the mask and the bytes behind it say.
/// The first of these that fails tells why. `size` is how many bytes it takes.
#[verifier::opaque]
pub open spec fn one_update_is_done<R: Replicator>(
    m0: Map<u64, u64>,
    w0: hecs::World,
    m1: Map<u64, u64>,
    w1: hecs::World,
    bytes: Seq<u8>,
    size: nat,
    result: Result<(), ReplicateError>,
) -> bool {
    let id = codec::id_read(bytes);
    let rest = bytes.skip(id->Some_0.1 as int);
    let bits = codec::mask_read(rest);
    let states = rest.skip(bits->Some_0.1 as int);
    if id is None || bits is None {
        &&& m1 == m0
        &&& w1 == w0
        &&& result == Err::<(), _>(ReplicateError::BadMessage(BadMessage::InvalidBincode))
    } else {
        exists|between: hecs::World, entity: Result<u64, MapperError>|
            {
                &&& #[trigger] nid::obtained(m0, w0, m1, between, id->Some_0.0, entity)
                &&& entity matches Err(err) ==> w1 == between && result == Err::<(), _>(
                    ReplicateError::Mapper(err),
                )
                &&& entity matches Ok(e) ==> {
                    &&& R::applied(between, w1, e, bits->Some_0.0, states)
                    &&& R::read(bits->Some_0.0, states) matches Ok(n) ==> result is Ok && size
                        == id->Some_0.1 + bits->Some_0.1 + n
                    &&& R::read(bits->Some_0.0, states) matches Err(err) ==> result == Err::<
                        (),
                        _,
                    >(ReplicateError::BadMessage(err))
                }
            }
    }
}

/// From `m0` and `w0`, updates were done one after the other, each at the place in `bytes` behind
/// the one before. `ms`, `ws` and `at` are the mapping, the world and the place before each and
/// after the last. All succeeded but perhaps the last, which ended with `result`.
pub open spec fn updates_are_done<R: Replicator>(
    bytes: Seq<u8>,
    ms: Seq<Map<u64, u64>>,
    ws: Seq<hecs::World>,
    at: Seq<nat>,
    result: Result<(), ReplicateError>,
) -> bool {
    let n = ms.len() - 1;
    &&& n >= 0
    &&& ws.len() == n + 1
    &&& at.len() == n + 1
    &&& at[0] == 0
    &&& n == 0 ==> result is Ok
    &&& forall|k: int|
        0 <= k < n ==> one_update_is_done::<R>(
            ms[k],
            ws[k],
            ms[k + 1],
            ws[k + 1],
            bytes.skip(#[trigger] at[k] as int),
            (at[k + 1] - at[k]) as nat,
            (if k == n - 1 {
                result
            } else {
                Ok(())
            }),
        )
    &&& forall|k: int|
        0 <= k < n && (k < n - 1 || result is Ok) ==> #[trigger] at[k] <= at[k + 1]
}

proof fn lemma_one_update<R: Replicator>(
    m0: Map<u64, u64>,
    w0: hecs::World,
    m1: Map<u64, u64>,
    w1: hecs::World,
    bytes: Seq<u8>,
    size: nat,
    result: Result<(), ReplicateError>,
)
    requires
        replicator::entity_applied::<R>(m0, w0, m1, w1, bytes, result),
        result is Ok ==> replicator::entity_read::<R>(bytes) == Ok::<nat, BadMessage>(size),
    ensures
        one_update_is_done::<R>(m0, w0, m1, w1, bytes, size, result),
{
    reveal(one_update_is_done);
    let id = codec::id_read(bytes);
    let rest = bytes.skip(id->Some_0.1 as int);
    let bits = codec::mask_read(rest);
    let states = rest.skip(bits->Some_0.1 as int);
    if id is Some && bits is Some {
        let (nid, mask, n) = replicator::header_read(bytes)->Some_0;
        codec::reads_lie_within(bytes);
        codec::reads_lie_within(rest);
        assert(states =~= bytes.skip(n as int));
        let (between, entity) = choose|between: hecs::World, entity: Result<u64, MapperError>|
         #[trigger]
            nid::obtained(m0, w0, m1, between, nid, entity) && match entity {
                Err(err) => w1 == between && result == Err::<(), _>(ReplicateError::Mapper(err)),
                Ok(e) => {
                    &&& R::applied(between, w1, e, mask, bytes.skip(n as int))
                    &&& result == (match R::read(mask, bytes.skip(n as int)) {
                        Ok(_) => Ok(()),
                        Err(err) => Err(ReplicateError::BadMessage(err)),
                    })
                },
            };
        assert(nid::obtained(m0, w0, m1, between, id->Some_0.0, entity));
    }
}

proof fn lemma_updates_done<R: Replicator>(
    count: nat,
    m0: Map<u64, u64>,
    w0: hecs::World,
    m1: Map<u64, u64>,
    w1: hecs::World,
    bytes: Seq<u8>,
    result: Result<(), ReplicateError>,
) -> (how: (Seq<Map<u64, u64>>, Seq<hecs::World>, Seq<nat>))
    requires
        replicator::entities_applied::<R>(count, m0, w0, m1, w1, bytes, result),
    ensures
        updates_are_done::<R>(bytes, how.0, how.1, how.2, result),
        how.0[0] == m0,
        how.1[0] == w0,
        how.0.last() == m1,
        how.1.last() == w1,
        how.0.len() <= count + 1,
        result is Ok ==> how.0.len() == count + 1 && replicator::entities_read::<R>(count, bytes)
            == Ok::<nat, BadMessage>(how.2.last()),
    decreases count,
{
    if count == 0 {
        (seq![m0], seq![w0], seq![0nat])
    } else {
        let rest = (count - 1) as nat;
        if result is Err && replicator::entities_applied::<R>(rest, m0, w0, m1, w1, bytes, result) {
            lemma_updates_done::<R>(rest, m0, w0, m1, w1, bytes, result)
        } else {
            let (m, w) = choose|m: Map<u64, u64>, w: hecs::World|
                {
                    &&& replicator::entities_applied::<R>(rest, m0, w0, m, w, bytes, Ok(()))
                    &&& #[trigger] replicator::entity_applied::<R>(
                        m,
                        w,
                        m1,
                        w1,
                        bytes.skip(replicator::entities_read::<R>(rest, bytes)->Ok_0 as int),
                        result,
                    )
                };
            let (ms, ws, at) = lemma_updates_done::<R>(rest, m0, w0, m, w, bytes, Ok(()));
            let here = bytes.skip(at.last() as int);
            let size: nat = match replicator::entity_read::<R>(here) {
                Ok(size) => size,
                Err(_) => 0,
            };
            if result is Ok {
                lemma_read_where_applied::<R>(m, w, m1, w1, here, result);
            }
            lemma_one_update::<R>(m, w, m1, w1, here, size, result);
            lemma_update_added::<R>(bytes, ms, ws, at, m1, w1, size, result);
            (ms.push(m1), ws.push(w1), at.push(at.last() + size))
        }
    }
}

proof fn lemma_update_added<R: Replicator>(
    bytes: Seq<u8>,
    ms: Seq<Map<u64, u64>>,
    ws: Seq<hecs::World>,
    at: Seq<nat>,
    m1: Map<u64, u64>,
    w1: hecs::World,
    size: nat,
    result: Result<(), ReplicateError>,
)
    requires
        updates_are_done::<R>(bytes, ms, ws, at, Ok(())),
        one_update_is_done::<R>(
            ms.last(),
            ws.last(),
            m1,
            w1,
            bytes.skip(at.last() as int),
            size,
            result,
        ),
    ensures
        updates_are_done::<R>(
            bytes,
            ms.push(m1),
            ws.push(w1),
            at.push(at.last() + size),
            result,
        ),
{
    let maps = ms.push(m1);
    let all = ws.push(w1);
    let places = at.push(at.last() + size);
    let n = maps.len() - 1;
    assert forall|k: int| 0 <= k < n implies one_update_is_done::<R>(
        maps[k],
        all[k],
        maps[k + 1],
        all[k + 1],
        bytes.skip(#[trigger] places[k] as int),
        (places[k + 1] - places[k]) as nat,
        (if k == n - 1 {
            result
        } else {
            Ok(())
        }),
    ) by {
        assert(places[k] == at[k]);
        if k < n - 1 {
            assert(places[k + 1] == at[k + 1]);
        }
    }
    assert forall|k: int| 0 <= k < n && (k < n - 1 || result is Ok) implies #[trigger] places[k]
        <= places[k + 1] by {
        assert(places[k] == at[k]);
    }
}

proof fn lemma_read_where_applied<R: Replicator>(
    m0: Map<u64, u64>,
    w0: hecs::World,
    m1: Map<u64, u64>,
    w1: hecs::World,
    bytes: Seq<u8>,
    result: Result<(), ReplicateError>,
)
    requires
        replicator::entity_applied::<R>(m0, w0, m1, w1, bytes, result),
        result is Ok,
    ensures
        replicator::entity_read::<R>(bytes) is Ok,
{
}

/// What one removal, whose id stands at the front of `bytes`, does: where the id is mapped and its
/// entity is there, the entity goes with all its components, and its handle dies; but for one of
/// the last generation, at which it fails. Reserved handles become entities where the id is mapped.
/// It fails, and changes nothing, where no id can be read. `size` is how many bytes the id takes.
#[verifier::opaque]
pub open spec fn one_removal_is_done(
    m: Map<u64, u64>,
    w0: hecs::World,
    w1: hecs::World,
    bytes: Seq<u8>,
    size: nat,
    result: Result<(), ReplicateError>,
) -> bool {
    let id = codec::id_read(bytes);
    let mapped = m.contains_key(id->Some_0.0);
    let e = m[id->Some_0.0];
    let there = mapped && world::population(w0).contains(e);
    &&& id is None ==> w1 == w0 && result == Err::<(), _>(
        ReplicateError::BadMessage(BadMessage::InvalidBincode),
    )
    &&& id is Some ==> size == id->Some_0.1
    &&& id is Some && !mapped ==> w1 == w0 && result is Ok
    &&& id is Some && mapped && !there ==> {
        &&& result is Ok
        &&& world::entities(w1) == world::population(w0)
        &&& world::net_ids(w1) == world::net_ids(w0)
        &&& world::player_ids(w1) == world::player_ids(w0)
        &&& world::others(w1) == world::others(w0)
    }
    &&& id is Some && there && e < 0xFFFF_FFFF_0000_0000 ==> {
        &&& result is Ok
        &&& world::entities(w1) == world::population(w0).remove(e)
        &&& world::net_ids(w1) == world::net_ids(w0).remove(e)
        &&& world::player_ids(w1) == world::player_ids(w0).remove(e)
        &&& world::others(w1) == world::others(w0).remove(e)
        &&& world::dead_handles(w1).contains(e)
    }
    &&& id is Some && there && e >= 0xFFFF_FFFF_0000_0000 ==> {
        &&& result == Err::<(), _>(ReplicateError::HandlesExhausted)
        &&& world::entities(w1) == world::population(w0)
    }
}

/// Removals were done one after the other, each of the id that stands in `bytes` behind the one
/// before. `ws` and `at` are the world and the place before each and after the last. All succeeded
/// but perhaps the last, which ended with `result`.
pub open spec fn removals_are_done(
    bytes: Seq<u8>,
    m: Map<u64, u64>,
    ws: Seq<hecs::World>,
    at: Seq<nat>,
    result: Result<(), ReplicateError>,
) -> bool {
    let n = ws.len() - 1;
    &&& n >= 0
    &&& at.len() == n + 1
    &&& at[0] == 0
    &&& n == 0 ==> result is Ok
    &&& forall|k: int|
        0 <= k < n ==> one_removal_is_done(
            m,
            ws[k],
            ws[k + 1],
            bytes.skip(#[trigger] at[k] as int),
            (at[k + 1] - at[k]) as nat,
            (if k == n - 1 {
                result
            } else {
                Ok(())
            }),
        )
}

proof fn lemma_one_removal(
    m: Map<u64, u64>,
    w0: hecs::World,
    w1: hecs::World,
    bytes: Seq<u8>,
    size: nat,
    result: Result<(), ReplicateError>,
)
    requires
        replicator::removal_applied(m, w0, w1, bytes, result),
        codec::id_read(bytes) matches Some((_, n)) ==> size == n,
    ensures
        one_removal_is_done(m, w0, w1, bytes, size, result),
{
    reveal(one_removal_is_done);
}

proof fn lemma_removal_added(
    bytes: Seq<u8>,
    m: Map<u64, u64>,
    ws: Seq<hecs::World>,
    at: Seq<nat>,
    w1: hecs::World,
    size: nat,
    result: Result<(), ReplicateError>,
)
    requires
        removals_are_done(bytes, m, ws, at, Ok(())),
        one_removal_is_done(m, ws.last(), w1, bytes.skip(at.last() as int), size, result),
    ensures
        removals_are_done(bytes, m, ws.push(w1), at.push(at.last() + size), result),
{
    let all = ws.push(w1);
    let places = at.push(at.last() + size);
    let n = all.len() - 1;
    assert forall|k: int| 0 <= k < n implies one_removal_is_done(
        m,
        all[k],
        all[k + 1],
        bytes.skip(#[trigger] places[k] as int),
        (places[k + 1] - places[k]) as nat,
        (if k == n - 1 {
            result
        } else {
            Ok(())
        }),
    ) by {
        assert(places[k] == at[k]);
        if k < n - 1 {
            assert(places[k + 1] == at[k + 1]);
        }
    }
}

proof fn lemma_removals_done(
    count: nat,
    m: Map<u64, u64>,
    w0: hecs::World,
    w1: hecs::World,
    bytes: Seq<u8>,
    result: Result<(), ReplicateError>,
) -> (how: (Seq<hecs::World>, Seq<nat>))
    requires
        replicator::removals_applied(count, m, w0, w1, bytes, result),
    ensures
        removals_are_done(bytes, m, how.0, how.1, result),
        how.0[0] == w0,
        how.0.last() == w1,
        how.0.len() <= count + 1,
        result is Ok ==> how.0.len() == count + 1 && replicator::ids_read(count, bytes) == Ok::<
            nat,
            BadMessage,
        >(how.1.last()),
    decreases count,
{
    if count == 0 {
        (seq![w0], seq![0nat])
    } else {
        let rest = (count - 1) as nat;
        if result is Err && replicator::removals_applied(rest, m, w0, w1, bytes, result) {
            lemma_removals_done(rest, m, w0, w1, bytes, result)
        } else {
            let w = choose|w: hecs::World|
                {
                    &&& replicator::removals_applied(rest, m, w0, w, bytes, Ok(()))
                    &&& #[trigger] replicator::removal_applied(
                        m,
                        w,
                        w1,
                        bytes.skip(replicator::ids_read(rest, bytes)->Ok_0 as int),
                        result,
                    )
                };
            let (ws, at) = lemma_removals_done(rest, m, w0, w, bytes, Ok(()));
            let here = bytes.skip(at.last() as int);
            let size: nat = match codec::id_read(here) {
                Some((_, size)) => size,
                None => 0,
            };
            lemma_one_removal(m, w, w1, here, size, result);
            lemma_removal_added(bytes, m, ws, at, w1, size, result);
            (ws.push(w1), at.push(at.last() + size))
        }
    }
}

/// One of the updates could not be done, and ended it with `result`; those before it were done.
pub open spec fn ends_in_updates<'a, R: Replicator>(
    unpacked: WorldUnpacked<'a>,
    m0: Map<u64, u64>,
    w0: hecs::World,
    m1: Map<u64, u64>,
    w1: hecs::World,
    result: Result<(), ReplicateError>,
    ms: Seq<Map<u64, u64>>,
    ws: Seq<hecs::World>,
    at: Seq<nat>,
) -> bool {
    &&& result is Err
    &&& updates_are_done::<R>(unpacked.raw@, ms, ws, at, result)
    &&& ms.len() <= unpacked.updated + 1
    &&& ms[0] == m0
    &&& ws[0] == w0
    &&& ms.last() == m1
    &&& ws.last() == w1
}

/// All updates were done, and then removals: all of them, or those before the one that could not be
/// done, which ended it with `result`.
pub open spec fn goes_on_to_removals<'a, R: Replicator>(
    unpacked: WorldUnpacked<'a>,
    m0: Map<u64, u64>,
    w0: hecs::World,
    m1: Map<u64, u64>,
    w1: hecs::World,
    result: Result<(), ReplicateError>,
    ms: Seq<Map<u64, u64>>,
    ws: Seq<hecs::World>,
    at: Seq<nat>,
    rs: Seq<hecs::World>,
    places: Seq<nat>,
) -> bool {
    &&& updates_are_done::<R>(unpacked.raw@, ms, ws, at, Ok(()))
    &&& ms.len() == unpacked.updated + 1
    &&& ms[0] == m0
    &&& ws[0] == w0
    &&& ms.last() == m1
    &&& removals_are_done(unpacked.raw@.skip(at.last() as int), m1, rs, places, result)
    &&& rs.len() <= unpacked.removed + 1
    &&& result is Ok ==> rs.len() == unpacked.removed + 1
    &&& rs[0] == ws.last()
    &&& rs.last() == w1
}

/// An update of the world is applied in the order in which it stands: first each entity that it
/// tells of, then each removal, every one behind the bytes of the one before. The first that cannot
/// be done ends it, and tells why; what was done before it stays done. It succeeds only where every
/// one of them was done.
pub proof fn updates_are_applied_in_order<'a, R: Replicator>(
    unpacked: WorldUnpacked<'a>,
    mapper: &mut EntityMapper,
    world: &mut hecs::World,
    result: Result<(), ReplicateError>,
)
    requires
        call_ensures(replicator::replicate::<R>, (unpacked, mapper, world), result),
    ensures
        ({
            ||| exists|ms: Seq<Map<u64, u64>>, ws: Seq<hecs::World>, at: Seq<nat>| #[trigger]
                ends_in_updates::<R>(
                    unpacked,
                    old(mapper)@,
                    *old(world),
                    final(mapper)@,
                    *final(world),
                    result,
                    ms,
                    ws,
                    at,
                )
            ||| exists|
                ms: Seq<Map<u64, u64>>,
                ws: Seq<hecs::World>,
                at: Seq<nat>,
                rs: Seq<hecs::World>,
                places: Seq<nat>,
            | #[trigger]
                goes_on_to_removals::<R>(
                    unpacked,
                    old(mapper)@,
                    *old(world),
                    final(mapper)@,
                    *final(world),
                    result,
                    ms,
                    ws,
                    at,
                    rs,
                    places,
                )
        }),
{
    let bytes = unpacked.raw@;
    let count = unpacked.updated as nat;
    let m0 = old(mapper)@;
    let m1 = final(mapper)@;
    let w0 = *old(world);
    let w1 = *final(world);
    assert(result is Ok ==> result->Ok_0 == ());
    if result is Err && replicator::entities_applied::<R>(count, m0, w0, m1, w1, bytes, result) {
        let (ms, ws, at) = lemma_updates_done::<R>(count, m0, w0, m1, w1, bytes, result);
        assert(ends_in_updates::<R>(unpacked, m0, w0, m1, w1, result, ms, ws, at));
    } else {
        let wm = choose|w: hecs::World|
            {
                &&& #[trigger] replicator::entities_applied::<R>(
                    count,
                    m0,
                    w0,
                    m1,
                    w,
                    bytes,
                    Ok(()),
                )
                &&& replicator::removals_applied(
                    unpacked.removed as nat,
                    m1,
                    w,
                    w1,
                    bytes.skip(replicator::entities_read::<R>(count, bytes)->Ok_0 as int),
                    result,
                )
            };
        let (ms, ws, at) = lemma_updates_done::<R>(count, m0, w0, m1, wm, bytes, Ok(()));
        let tail = bytes.skip(at.last() as int);
        let (rs, places) = lemma_removals_done(
            unpacked.removed as nat,
            m1,
            wm,
            w1,
            tail,
            result,
        );
        assert(goes_on_to_removals::<R>(
            unpacked,
            m0,
            w0,
            m1,
            w1,
            result,
            ms,
            ws,
            at,
            rs,
            places,
        ));
    }
}

/// A descriptor is told from others by the id of its type: it is added exactly where none with that
/// id was, and is then known by it. To begin with there is none.
pub proof fn descriptor_types_are_added_once<P, R, T: Descriptor + 'static>(
    empty: ClientBuilder<NoLocalPlayerType, ()>,
    builder: ClientBuilder<P, R>,
    added: Option<ClientBuilder<P, (R, T)>>,
)
    requires
        call_ensures(ClientSystem::<(), DummyLocalPlayer, ()>::builder, (), empty),
        call_ensures(ClientBuilder::<P, R>::with_descriptor::<T>, (builder,), added),
    ensures
        empty.ids().len() == 0,
        exists|id: TypeId|
            {
                &&& #[trigger] call_ensures(types::id_of::<T>, (), id)
                &&& added is None <==> builder.ids().contains(id)
                &&& added matches Some(added) ==> added.ids() == builder.ids() + seq![id]
            },
{
    let id = choose|id: TypeId|
        {
            &&& #[trigger] call_ensures(types::id_of::<T>, (), id)
            &&& added is None <==> builder.ids().contains(id)
            &&& added matches Some(added) ==> added.ids() == builder.ids().push(id)
        };
    assert(builder.ids().push(id) =~= builder.ids() + seq![id]);
    assert(call_ensures(types::id_of::<T>, (), id));
}

/// A player that is nobody sends no bytes, and leaves the world as it is.
pub proof fn dummies_send_nothing(
    w0: hecs::World,
    w1: hecs::World,
    entity: u64,
    commands: Option<Seq<u8>>,
)
    ensures
        <DummyLocalPlayer as LocalPlayer>::taken(w0, w1, entity, commands) ==> w1 == w0 && (commands
            matches Some(bytes) && bytes.len() == 0),
{
}

} // verus!
