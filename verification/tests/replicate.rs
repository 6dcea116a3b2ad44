use lloth::client;
use lloth::client::replicator::{replicate, ReplicateError};
use lloth::client::BadMessage;
use lloth::client_server::PlayerId;
use lloth::nid::{EntityMapper, IdGen, MapperError, NetId};
use lloth::schema::{InputPack, InputSchema, WorldSchema, WorldUnpacked};
use lloth::server;
use lloth::server::replicas::{Replicas, WorldReplicaPack};
use lloth::server::{History, Missing, Replicate, ServerEntity, ServerOwned, TrackReplicate};

/// A component of two bytes.
#[derive(Clone, Copy, Debug, PartialEq, Eq)]
struct Position(u8, u8);

/// Another, which travels as one byte.
#[derive(Clone, Copy, Debug, PartialEq, Eq)]
struct Health(u8);

impl server::Descriptor for Position {
    type History = Position;

    fn history(world: &mut hecs::World, entity: u64) -> Option<Position> {
        world.query_one_mut::<&Position>(hecs::Entity::from_bits(entity)).ok().copied()
    }

    fn replicate(
        world: &mut hecs::World,
        entity: u64,
        history: Option<&Position>,
    ) -> Option<Replicate<Vec<u8>>> {
        let item = world.query_one_mut::<&Position>(hecs::Entity::from_bits(entity)).ok()?;
        Some(match server::replicate_component(item, history) {
            Replicate::Unmodified => Replicate::Unmodified,
            Replicate::Modified(item) => Replicate::Modified(vec![item.0, item.1]),
        })
    }
}

impl server::Descriptor for Health {
    type History = Health;

    fn history(world: &mut hecs::World, entity: u64) -> Option<Health> {
        world.query_one_mut::<&Health>(hecs::Entity::from_bits(entity)).ok().copied()
    }

    fn replicate(
        world: &mut hecs::World,
        entity: u64,
        history: Option<&Health>,
    ) -> Option<Replicate<Vec<u8>>> {
        let item = world.query_one_mut::<&Health>(hecs::Entity::from_bits(entity)).ok()?;
        Some(match server::replicate_component(item, history) {
            Replicate::Unmodified => Replicate::Unmodified,
            Replicate::Modified(item) => Replicate::Modified(vec![item.0]),
        })
    }
}

impl client::Descriptor for Position {
    type Pack = Position;

    fn decode(input: &[u8], pos: usize) -> Option<(Position, usize)> {
        Some((Position(*input.get(pos)?, *input.get(pos + 1)?), pos + 2))
    }

    fn present(entity: u64, world: &mut hecs::World) -> bool {
        world.query_one_mut::<&Position>(hecs::Entity::from_bits(entity)).is_ok()
    }

    fn insert(pack: Position, entity: u64, world: &mut hecs::World) {
        world.insert_one(hecs::Entity::from_bits(entity), pack).unwrap();
    }

    fn modify(pack: Position, entity: u64, world: &mut hecs::World) {
        *world.query_one_mut::<&mut Position>(hecs::Entity::from_bits(entity)).unwrap() = pack;
    }

    fn remove(entity: u64, world: &mut hecs::World) {
        world.remove_one::<Position>(hecs::Entity::from_bits(entity)).unwrap();
    }
}

impl client::Descriptor for Health {
    type Pack = Health;

    fn decode(input: &[u8], pos: usize) -> Option<(Health, usize)> {
        Some((Health(*input.get(pos)?), pos + 1))
    }

    fn present(entity: u64, world: &mut hecs::World) -> bool {
        world.query_one_mut::<&Health>(hecs::Entity::from_bits(entity)).is_ok()
    }

    fn insert(pack: Health, entity: u64, world: &mut hecs::World) {
        world.insert_one(hecs::Entity::from_bits(entity), pack).unwrap();
    }

    fn modify(pack: Health, entity: u64, world: &mut hecs::World) {
        *world.query_one_mut::<&mut Health>(hecs::Entity::from_bits(entity)).unwrap() = pack;
    }

    fn remove(entity: u64, world: &mut hecs::World) {
        world.remove_one::<Health>(hecs::Entity::from_bits(entity)).unwrap();
    }
}

type ServerRow = ((((), Position), Health), server::PlayerIdDescriptor);
type ClientRow = ((((), Position), Health), client::PlayerIdDescriptor);

struct Server {
    world: hecs::World,
    id_gen: IdGen,
    mapper: EntityMapper,
    replicas: Replicas<ServerRow>,
}

impl Server {
    fn new() -> Self {
        Server {
            world: hecs::World::new(),
            id_gen: IdGen::new(),
            mapper: EntityMapper::new(),
            replicas: Replicas::new(),
        }
    }

    fn step(&mut self, back: u64) -> WorldReplicaPack {
        self.replicas.init_entities(&mut self.world, &mut self.id_gen, &mut self.mapper);
        let pack = self.replicas.pack(&mut self.world, &self.mapper, back);
        self.replicas.update_history(&mut self.world);
        self.mapper.clear_removed(&self.world);
        pack
    }
}

struct Client {
    world: hecs::World,
    mapper: EntityMapper,
}

impl Client {
    fn new() -> Self {
        Client { world: hecs::World::new(), mapper: EntityMapper::new() }
    }

    fn apply(&mut self, pack: &WorldReplicaPack) -> Result<(), ReplicateError> {
        let mut raw = pack.body.clone();
        raw.extend([0xFE; 5]);
        let unpacked = WorldUnpacked {
            raw: &raw,
            updated: pack.updated,
            removed: pack.removed.len(),
        };
        replicate::<ClientRow>(unpacked, &mut self.mapper, &mut self.world)
    }

    fn rows(&mut self) -> Vec<(u64, Option<Position>, Option<Health>, Option<PlayerId>)> {
        let mut rows: Vec<_> = self
            .world
            .query_mut::<(&NetId, Option<&Position>, Option<&Health>, Option<&PlayerId>)>()
            .into_iter()
            .map(|(_, (nid, p, h, pid))| (nid.0, p.copied(), h.copied(), pid.copied()))
            .collect();
        rows.sort_by_key(|row| row.0);
        rows
    }
}

#[test]
fn history_is_fetched_from_the_newest_back() {
    let mut history: History<u32> = History::new();
    assert_eq!(history.fetch(0), Err(Missing));
    history.add(Some(1));
    history.add(None);
    history.add(Some(3));
    assert_eq!(history.fetch(0), Ok(Some(&3)));
    assert_eq!(history.fetch(1), Ok(None));
    assert_eq!(history.fetch(2), Ok(Some(&1)));
    assert_eq!(history.fetch(3), Err(Missing));
    assert_eq!(history.fetch(u64::MAX), Err(Missing));
}

#[test]
fn tracking_compares_with_the_past() {
    let mut world = hecs::World::new();
    let entity = world.spawn((Health(5),));
    let bits = entity.to_bits();
    let mut history: History<Health> = History::new();
    assert_eq!(
        history.track_replicate::<Health>(0, &mut world, bits),
        TrackReplicate::Modified(vec![5])
    );
    history.add(Some(Health(5)));
    assert_eq!(
        history.track_replicate::<Health>(0, &mut world, bits),
        TrackReplicate::Unmodified
    );
    history.add(Some(Health(4)));
    assert_eq!(
        history.track_replicate::<Health>(0, &mut world, bits),
        TrackReplicate::Modified(vec![5])
    );
    assert_eq!(
        history.track_replicate::<Health>(1, &mut world, bits),
        TrackReplicate::Unmodified
    );
    world.remove_one::<Health>(entity).unwrap();
    assert_eq!(
        history.track_replicate::<Health>(0, &mut world, bits),
        TrackReplicate::Removed
    );
    assert_eq!(
        history.track_replicate::<Health>(9, &mut world, bits),
        TrackReplicate::Removed
    );
    history.add(None);
    assert_eq!(
        history.track_replicate::<Health>(0, &mut world, bits),
        TrackReplicate::Unmodified
    );
}

#[test]
fn an_equal_component_is_not_sent() {
    assert_eq!(server::replicate_component(&5, None), Replicate::Modified(&5));
    assert_eq!(server::replicate_component(&5, Some(&5)), Replicate::Unmodified);
    assert_eq!(server::replicate_component(&5, Some(&6)), Replicate::Modified(&5));
}

#[test]
fn only_owned_entities_are_sent() {
    let mut server = Server::new();
    server.world.spawn((Position(1, 2),));
    assert_eq!(server.step(0).updated, 0);
    server.world.spawn((ServerOwned, Position(3, 4), PlayerId(300)));
    let pack = server.step(1);
    assert_eq!(pack.updated, 1);
    assert!(pack.removed.is_empty());
    // Id, mask of three slots (changed, removed, changed), position, player.
    assert_eq!(pack.body, vec![1, 0b11_01_11, 3, 4, 251, 44, 1]);
    assert_eq!(server.replicas.len(), 1);
}

#[test]
fn an_entity_that_is_owned_no_more_is_not_sent() {
    let mut server = Server::new();
    let a = server.world.spawn((ServerOwned, Position(1, 1)));
    server.world.spawn((ServerOwned, Position(2, 2)));
    server.step(0);
    server.world.remove_one::<ServerOwned>(a).unwrap();
    server.world.get_mut::<Position>(a).unwrap().0 = 5;
    // One who has seen nothing gets the other entity alone.
    let pack = server.step(1);
    assert_eq!(pack.updated, 1);
    assert_eq!(pack.body, vec![2, 0b01_01_11, 2, 2]);
    assert!(pack.removed.is_empty());
    assert_eq!(server.replicas.len(), 2);
    let pack = server.step(0);
    assert_eq!(pack.updated, 0);
    assert!(pack.body.is_empty());
}

#[test]
fn an_entity_that_is_owned_again_is_sent_whole() {
    let mut server = Server::new();
    let a = server.world.spawn((ServerOwned, Position(1, 1), PlayerId(7)));
    let mut client = Client::new();
    client.apply(&server.step(0)).unwrap();
    // The entity changes while it is not owned, and the client acknowledges that step.
    server.world.remove_one::<ServerOwned>(a).unwrap();
    server.world.insert_one(a, PlayerId(8)).unwrap();
    let pack = server.step(0);
    assert_eq!(pack.updated, 0);
    client.apply(&pack).unwrap();
    // One who comes now gets nothing either.
    let mut late = Client::new();
    late.apply(&pack).unwrap();
    assert!(late.rows().is_empty());
    // Then it is owned again.
    server.world.insert_one(a, ServerOwned).unwrap();
    let pack = server.step(0);
    assert_eq!(pack.updated, 1);
    assert_eq!(pack.body, vec![1, 0b11_01_11, 1, 1, 8]);
    client.apply(&pack).unwrap();
    late.apply(&pack).unwrap();
    let expected = vec![(1, Some(Position(1, 1)), None, Some(PlayerId(8)))];
    assert_eq!(client.rows(), expected);
    assert_eq!(late.rows(), expected);
    // One who has seen that gets no more.
    assert_eq!(server.step(0).updated, 0);
    // One who saw the entity before it was lost, and nothing since, gets the change alone.
    let pack = server.step(3);
    assert_eq!(pack.body, vec![1, 0b11_00_00, 8]);
}

#[test]
fn entities_are_adopted_once() {
    let mut world = hecs::World::new();
    let mut id_gen = IdGen::new();
    let mut mapper = EntityMapper::new();
    let mut replicas: Replicas<ServerRow> = Replicas::new();
    let a = world.spawn((ServerOwned, Health(1)));
    world.spawn((Health(2),));
    replicas.init_entities(&mut world, &mut id_gen, &mut mapper);
    assert_eq!(replicas.len(), 1);
    assert_eq!(mapper.get(NetId(1)), Some(a.to_bits()));
    assert_eq!(id_gen.gen(), 2);
    replicas.init_entities(&mut world, &mut id_gen, &mut mapper);
    assert_eq!(replicas.len(), 1);
    assert_eq!(mapper.get(NetId(3)), None);
    assert_eq!(id_gen.gen(), 3);
}

#[test]
fn a_new_client_gets_everything_and_then_only_changes() {
    let mut server = Server::new();
    let a = server.world.spawn((ServerOwned, Position(1, 1), Health(9)));
    let b = server.world.spawn((ServerOwned, Position(2, 2), PlayerId(70)));
    let mut client = Client::new();

    let pack = server.step(0);
    assert_eq!(pack.updated, 2);
    client.apply(&pack).unwrap();
    assert_eq!(
        client.rows(),
        vec![
            (1, Some(Position(1, 1)), Some(Health(9)), None),
            (2, Some(Position(2, 2)), None, Some(PlayerId(70))),
        ]
    );

    let pack = server.step(0);
    assert_eq!(pack.updated, 0);
    assert!(pack.body.is_empty());

    server.world.get_mut::<Position>(a).unwrap().0 = 5;
    server.world.remove_one::<PlayerId>(b).unwrap();
    server.world.insert_one(b, Health(1)).unwrap();
    let pack = server.step(0);
    assert_eq!(pack.updated, 2);
    assert_eq!(pack.body, vec![1, 0b00_00_11, 5, 1, 2, 0b01_11_00, 1]);
    client.apply(&pack).unwrap();
    assert_eq!(
        client.rows(),
        vec![
            (1, Some(Position(5, 1)), Some(Health(9)), None),
            (2, Some(Position(2, 2)), Some(Health(1)), None),
        ]
    );
}

#[test]
fn a_client_that_missed_updates_catches_up() {
    let mut server = Server::new();
    let a = server.world.spawn((ServerOwned, Position(0, 0)));
    let mut client = Client::new();
    client.apply(&server.step(0)).unwrap();
    for i in 1..5u8 {
        server.world.get_mut::<Position>(a).unwrap().0 = i;
        server.step(0);
    }
    server.world.spawn((ServerOwned, Health(3)));
    // The client has seen the first of five steps.
    let pack = server.step(4);
    client.apply(&pack).unwrap();
    assert_eq!(
        client.rows(),
        vec![
            (1, Some(Position(4, 0)), None, None),
            (2, None, Some(Health(3)), None),
        ]
    );
}

#[test]
fn entities_of_the_client_stay_as_they_were() {
    let mut server = Server::new();
    let a = server.world.spawn((ServerOwned, Position(1, 1), PlayerId(4)));
    let mut client = Client::new();
    let own = client.world.spawn((Position(8, 8), PlayerId(6)));
    client.apply(&server.step(0)).unwrap();
    server.world.despawn(a).unwrap();
    client.apply(&server.step(0)).unwrap();
    assert_eq!(client.world.len(), 1);
    assert_eq!(*client.world.get::<Position>(own).unwrap(), Position(8, 8));
    assert_eq!(*client.world.get::<PlayerId>(own).unwrap(), PlayerId(6));
}

#[test]
fn components_mapping_and_replicas_agree_after_a_run() {
    let mut server = Server::new();
    let a = server.world.spawn((ServerOwned, Position(1, 1)));
    let b = server.world.spawn((ServerOwned,));
    server.world.spawn((Position(3, 3),));
    server.step(0);
    server.world.despawn(a).unwrap();
    let c = server.world.spawn((ServerOwned, Health(1)));
    server.step(0);
    let adopted: Vec<hecs::Entity> =
        server.world.query_mut::<&ServerEntity>().into_iter().map(|(e, _)| e).collect();
    assert_eq!(adopted.len(), 2);
    assert!(adopted.contains(&b) && adopted.contains(&c));
    assert_eq!(server.replicas.len(), 2);
    assert_eq!(server.mapper.get(NetId(1)), None);
    let mut mapped = vec![server.mapper.get(NetId(2)), server.mapper.get(NetId(3))];
    mapped.sort();
    let mut expected = vec![Some(b.to_bits()), Some(c.to_bits())];
    expected.sort();
    assert_eq!(mapped, expected);
}

#[test]
fn despawned_entities_are_removed() {
    let mut server = Server::new();
    let a = server.world.spawn((ServerOwned, Position(1, 1)));
    server.world.spawn((ServerOwned, Position(2, 2)));
    let mut client = Client::new();
    client.apply(&server.step(0)).unwrap();
    server.world.despawn(a).unwrap();
    let pack = server.step(0);
    assert_eq!(pack.updated, 0);
    assert_eq!(pack.removed, vec![NetId(1)]);
    assert_eq!(pack.body, vec![1]);
    client.apply(&pack).unwrap();
    assert_eq!(client.rows(), vec![(2, Some(Position(2, 2)), None, None)]);
    assert_eq!(server.replicas.len(), 1);
    assert!(server.step(0).removed.is_empty());
    // Removing twice does nothing.
    client.apply(&pack).unwrap();
    assert_eq!(client.rows().len(), 1);
}

#[test]
fn a_respawned_handle_is_a_new_entity() {
    let mut server = Server::new();
    let a = server.world.spawn((ServerOwned, Position(1, 1)));
    server.step(0);
    server.world.despawn(a).unwrap();
    server.world.spawn((ServerOwned, Position(9, 9)));
    let pack = server.step(0);
    assert_eq!(pack.updated, 1);
    assert_eq!(pack.body[0], 2);
    assert_eq!(pack.removed, vec![NetId(1)]);
}

fn message(raw: &[u8], updated: usize, removed: usize) -> (Client, Result<(), ReplicateError>) {
    let mut client = Client::new();
    let unpacked = WorldUnpacked { raw, updated, removed };
    let result = replicate::<ClientRow>(unpacked, &mut client.mapper, &mut client.world);
    (client, result)
}

#[test]
fn bad_messages_are_refused_and_applied_as_far_as_they_go() {
    let invalid = Err(ReplicateError::BadMessage(BadMessage::InvalidBincode));
    // No bytes at all.
    assert_eq!(message(&[], 1, 0).1, invalid);
    // Zero is no id.
    assert_eq!(message(&[0, 0], 1, 0).1, invalid);
    // No mask.
    let (mut client, result) = message(&[4], 1, 0);
    assert_eq!(result, invalid);
    assert!(client.rows().is_empty());
    // Position is cut off after the entity was spawned.
    let (mut client, result) = message(&[4, 0b11, 7], 1, 0);
    assert_eq!(result, invalid);
    assert_eq!(client.rows(), vec![(4, None, None, None)]);
    // A mask that says there is state and no change.
    let (mut client, result) = message(&[4, 0b10_11, 7, 8], 1, 0);
    assert_eq!(result, Err(ReplicateError::BadMessage(BadMessage::InvalidMask)));
    assert_eq!(client.rows(), vec![(4, Some(Position(7, 8)), None, None)]);
    // A player with no id.
    assert_eq!(message(&[4, 0b11_00_00, 0], 1, 0).1, invalid);
    // Removed ids are missing.
    let (mut client, result) = message(&[4, 0b11, 7, 8], 1, 1);
    assert_eq!(result, invalid);
    assert_eq!(client.rows().len(), 1);
}

#[test]
fn a_good_message_ends_where_it_says() {
    let (mut client, result) = message(&[4, 0b11, 7, 8, 99, 99], 1, 0);
    assert_eq!(result, Ok(()));
    assert_eq!(client.rows(), vec![(4, Some(Position(7, 8)), None, None)]);
}

#[test]
fn an_entity_that_was_tampered_with_is_refused() {
    let (mut client, _) = message(&[4, 0b11, 7, 8], 1, 0);
    let handle = hecs::Entity::from_bits(client.mapper.get(NetId(4)).unwrap());
    client.world.get_mut::<NetId>(handle).unwrap().0 = 5;
    let raw = [4, 0b11, 7, 8];
    let unpacked = WorldUnpacked { raw: &raw, updated: 1, removed: 0 };
    assert_eq!(
        replicate::<ClientRow>(unpacked, &mut client.mapper, &mut client.world),
        Err(ReplicateError::Mapper(MapperError::NetIdModified))
    );
}

#[test]
fn a_removal_flushes_the_world() {
    // The entity of the id is gone already.
    let (mut client, _) = message(&[4, 0b11, 7, 8], 1, 0);
    let handle = hecs::Entity::from_bits(client.mapper.get(NetId(4)).unwrap());
    client.world.despawn(handle).unwrap();
    let first = client.world.reserve_entity();
    let second = client.world.reserve_entity();
    assert_eq!(client.world.len(), 0);
    let unpacked = WorldUnpacked { raw: &[4], updated: 0, removed: 1 };
    assert_eq!(replicate::<ClientRow>(unpacked, &mut client.mapper, &mut client.world), Ok(()));
    assert_eq!(client.world.len(), 2);
    // An entity that was only reserved goes like any other.
    let mut id_gen = IdGen::new();
    while id_gen.gen() < 4 {}
    let nid = client.mapper.new_nid(&mut id_gen, first.to_bits());
    client.world.despawn(second).unwrap();
    let third = client.world.reserve_entity();
    let other = client.mapper.new_nid(&mut id_gen, third.to_bits());
    let raw = [nid.0 as u8, other.0 as u8];
    let unpacked = WorldUnpacked { raw: &raw, updated: 0, removed: 2 };
    assert_eq!(replicate::<ClientRow>(unpacked, &mut client.mapper, &mut client.world), Ok(()));
    assert_eq!(client.world.len(), 0);
}

#[test]
fn an_entity_without_its_id_is_still_removed() {
    let (mut client, _) = message(&[4, 0b11, 7, 8], 1, 0);
    let handle = hecs::Entity::from_bits(client.mapper.get(NetId(4)).unwrap());
    client.world.remove_one::<NetId>(handle).unwrap();
    let raw = [4];
    let unpacked = WorldUnpacked { raw: &raw, updated: 0, removed: 1 };
    assert_eq!(
        replicate::<ClientRow>(unpacked, &mut client.mapper, &mut client.world),
        Ok(())
    );
    assert_eq!(client.world.len(), 0);
}

#[test]
fn a_handle_of_the_last_generation_is_not_despawned() {
    let mut client = Client::new();
    let handle = hecs::Entity::from_bits(0xFFFF_FFFF_0000_0003);
    client.world.spawn_at(handle, (NetId(1),));
    client.mapper.new_nid(&mut IdGen::new(), handle.to_bits());
    let raw = [1];
    let unpacked = WorldUnpacked { raw: &raw, updated: 0, removed: 1 };
    assert_eq!(
        replicate::<ClientRow>(unpacked, &mut client.mapper, &mut client.world),
        Err(ReplicateError::HandlesExhausted)
    );
    assert!(client.world.contains(handle));
}

#[test]
fn removing_an_unknown_id_does_nothing() {
    let (mut client, result) = message(&[77], 0, 1);
    assert_eq!(result, Ok(()));
    assert!(client.rows().is_empty());
}

#[test]
fn an_update_is_laid_out_in_a_message() {
    let pack = WorldReplicaPack {
        updated: 2,
        removed: vec![NetId(5)],
        body: vec![10, 11, 12, 5],
    };
    let mut words = vec![0u64; 8];
    let bytes: &mut [u8] = bytemuck::cast_slice_mut(&mut words);
    let used = alkahest::write::<WorldSchema, _>(bytes, &pack);
    assert_eq!(used, 16);
    assert_eq!(&bytes[..12], &[12, 0, 0, 0, 2, 0, 0, 0, 1, 0, 0, 0]);
    let unpacked = alkahest::read::<WorldSchema>(bytes);
    assert_eq!(&unpacked.raw[..4], &[10, 11, 12, 5]);
    assert_eq!(unpacked.raw.len(), 52);
    assert_eq!(unpacked.updated, 2);
    assert_eq!(unpacked.removed, 1);
    assert_eq!(<WorldSchema as alkahest::Schema>::align(), 4);
}

#[test]
fn an_input_is_laid_out_in_a_message() {
    let mut words = vec![0u64; 4];
    let bytes: &mut [u8] = bytemuck::cast_slice_mut(&mut words);
    let input = InputPack { input: vec![7, 8, 9] };
    let used = alkahest::write::<InputSchema, _>(bytes, &input);
    assert_eq!(used, 11);
    assert_eq!(&bytes[..8], &[8, 0, 0, 0, 3, 0, 0, 0]);
    assert_eq!(alkahest::read::<InputSchema>(bytes), &[7, 8, 9]);
    assert!(bytes[11..].iter().all(|b| *b == 0));
    assert_eq!(<InputSchema as alkahest::Schema>::align(), 4);
}
