use lloth::client_server::PlayerId;
use lloth::nid::{decide, EntityMapper, IdGen, MapperError, NetId, Resolution, ZeroNetIdError};
use lloth::world::{self, Lookup};

#[test]
fn ids_start_at_one_and_never_repeat() {
    let mut id_gen = IdGen::new();
    assert_eq!(id_gen.gen_nid(), NetId(1));
    assert_eq!(id_gen.gen_pid(), PlayerId(2));
    assert_eq!(id_gen.gen(), 3);
    assert!(id_gen.has(u64::MAX - 4));
    assert!(!id_gen.has(u64::MAX - 3));
}

#[test]
fn an_unknown_id_is_spawned_once() {
    let mut world = hecs::World::new();
    let mut mapper = EntityMapper::new();
    assert_eq!(mapper.get(NetId(7)), None);
    let entity = mapper.get_or_spawn(&mut world, NetId(7)).unwrap();
    assert_eq!(mapper.get(NetId(7)), Some(entity));
    assert_eq!(world.len(), 1);
    let handle = hecs::Entity::from_bits(entity);
    assert_eq!(*world.get::<NetId>(handle).unwrap(), NetId(7));
    assert_eq!(mapper.get_or_spawn(&mut world, NetId(7)), Ok(entity));
    assert_eq!(world.len(), 1);
    let other = mapper.get_or_spawn(&mut world, NetId(8)).unwrap();
    assert_ne!(other, entity);
}

#[test]
fn an_empty_world_takes_entities() {
    let mut world = world::empty();
    assert_eq!(world.len(), 0);
    let mut mapper = EntityMapper::new();
    assert!(mapper.get_or_spawn(&mut world, NetId(7)).is_ok());
    assert_eq!(world.len(), 1);
}

#[test]
fn reserved_handles_become_entities_and_one_more_comes() {
    let mut world = world::empty();
    let reserved = world.reserve_entity();
    let mut mapper = EntityMapper::new();
    let entity = mapper.get_or_spawn(&mut world, NetId(7)).unwrap();
    assert_ne!(entity, reserved.to_bits());
    assert_eq!(world.len(), 2);
    let mut handles: Vec<u64> =
        world.query_mut::<()>().into_iter().map(|(e, ())| e.to_bits()).collect();
    handles.sort();
    let mut expected = vec![entity, reserved.to_bits()];
    expected.sort();
    assert_eq!(handles, expected);
    assert!(world.get::<NetId>(reserved).is_err());
}

#[test]
fn a_dead_entity_is_spawned_anew() {
    let mut world = hecs::World::new();
    let mut mapper = EntityMapper::new();
    let first = mapper.get_or_spawn(&mut world, NetId(7)).unwrap();
    world.despawn(hecs::Entity::from_bits(first)).unwrap();
    let second = mapper.get_or_spawn(&mut world, NetId(7)).unwrap();
    assert_ne!(first, second);
    assert_eq!(mapper.get(NetId(7)), Some(second));
    // Whoever asks again gets the same.
    assert_eq!(mapper.get_or_spawn(&mut world, NetId(7)), Ok(second));
    assert_eq!(world.len(), 1);
    assert_eq!(*world.get::<NetId>(hecs::Entity::from_bits(second)).unwrap(), NetId(7));
}

#[test]
fn a_changed_or_missing_component_is_refused() {
    let mut world = hecs::World::new();
    let mut mapper = EntityMapper::new();
    let entity = mapper.get_or_spawn(&mut world, NetId(7)).unwrap();
    let handle = hecs::Entity::from_bits(entity);
    world.get_mut::<NetId>(handle).unwrap().0 = 8;
    assert_eq!(
        mapper.get_or_spawn(&mut world, NetId(7)),
        Err(MapperError::NetIdModified)
    );
    world.remove_one::<NetId>(handle).unwrap();
    assert_eq!(
        mapper.get_or_spawn(&mut world, NetId(7)),
        Err(MapperError::NetIdRemoved)
    );
    assert_eq!(world.len(), 1);
}

#[test]
fn decisions_follow_what_the_world_says() {
    assert_eq!(decide(Lookup::Found(3), 3), Resolution::Use);
    assert_eq!(
        decide(Lookup::Found(4), 3),
        Resolution::Refuse(MapperError::NetIdModified)
    );
    assert_eq!(
        decide(Lookup::MissingComponent, 3),
        Resolution::Refuse(MapperError::NetIdRemoved)
    );
    assert_eq!(decide(Lookup::NoSuchEntity, 3), Resolution::Spawn);
}

#[test]
fn ids_of_dead_entities_are_told_and_forgotten() {
    let mut world = hecs::World::new();
    let mut mapper = EntityMapper::new();
    let mut id_gen = IdGen::new();
    let handles: Vec<hecs::Entity> = (0..4).map(|_| world.spawn(())).collect();
    for handle in &handles {
        mapper.new_nid(&mut id_gen, handle.to_bits());
    }
    assert!(mapper.iter_removed(&world).is_empty());
    world.despawn(handles[1]).unwrap();
    world.despawn(handles[3]).unwrap();
    let mut removed = mapper.iter_removed(&world);
    removed.sort_by_key(|nid| nid.0);
    assert_eq!(removed, vec![NetId(2), NetId(4)]);
    mapper.clear_removed(&world);
    assert!(mapper.iter_removed(&world).is_empty());
    assert_eq!(mapper.get(NetId(1)), Some(handles[0].to_bits()));
    assert_eq!(mapper.get(NetId(2)), None);
    assert_eq!(mapper.get(NetId(3)), Some(handles[2].to_bits()));
    assert_eq!(mapper.get(NetId(4)), None);
}

#[test]
fn net_ids_travel_as_numbers() {
    let mut bytes = [0u8; 16];
    let used = alkahest::write::<NetId, _>(&mut bytes, NetId(0x0102));
    assert_eq!(used, 8);
    assert_eq!(&bytes[..8], &[2, 1, 0, 0, 0, 0, 0, 0]);
    assert_eq!(
        <NetId as alkahest::Schema>::unpack(0x0102, &bytes),
        Ok(NetId(0x0102))
    );
    assert_eq!(<NetId as alkahest::Schema>::unpack(0, &bytes), Err(ZeroNetIdError));
    assert_eq!(<NetId as alkahest::Schema>::align(), 8);
}

#[test]
fn player_ids_travel_as_numbers() {
    let mut bytes = [0u8; 8];
    assert_eq!(alkahest::write::<PlayerId, _>(&mut bytes, PlayerId(9)), 8);
    assert_eq!(bytes, [9, 0, 0, 0, 0, 0, 0, 0]);
    assert_eq!(<PlayerId as alkahest::Schema>::unpack(9, &bytes), Some(PlayerId(9)));
    assert_eq!(<PlayerId as alkahest::Schema>::unpack(0, &bytes), None);
    assert_eq!(<PlayerId as alkahest::Schema>::align(), 8);
}
