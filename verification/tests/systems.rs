use lloth::client::system::{send_inputs, PlayerIdCollision, RunError, SentInput};
use lloth::client::replicator::ReplicateError;
use lloth::client::{
    self, BadMessage, ClientBuilder, ClientSystem, DummyLocalPlayer, LocalPlayer,
};
use lloth::client_server::{
    ClientError, ClientId, ClientMessage, Connected, Event, InputStep, PlayerId, Progress,
    ServerMessage,
};
use lloth::lloth_core::client_server::ClientSession;
use lloth::nid::{NetId, ZeroNetIdError};
use lloth::schema::WorldUnpacked;
use lloth::server::replicas::WorldReplicaPack;
use lloth::server::system::PackedInput;
use lloth::server::{
    self, DummyRemotePlayer, RemotePlayer, ServerBuilder, ServerOwned, ServerSystem,
};
use std::collections::HashSet;

type FromClient = Result<Option<ClientMessage<InputStep, Vec<u8>, PackedInput>>, &'static str>;
type FromServer<'a> =
    Result<Option<ServerMessage<Connected, PlayerId, WorldUnpacked<'a>>>, &'static str>;
type Reply = Option<ServerMessage<Connected, PlayerId, ()>>;

/// Commands that reached an entity.
struct Commands(Vec<u8>);

/// Those who left.
struct Left(Vec<u64>);

/// A player that owns one entity and counts the inputs that were applied.
struct Walker {
    pid: PlayerId,
    applied: u8,
}

impl RemotePlayer for Walker {
    type Info = u8;
    type Input = u8;
    type Error = &'static str;

    fn decode_info(bytes: &[u8]) -> Option<u8> {
        bytes.first().copied()
    }

    fn decode_input(bytes: &[u8]) -> Option<u8> {
        bytes.first().copied()
    }

    fn accept(info: u8, pid: PlayerId, world: &mut hecs::World) -> Result<Self, &'static str> {
        if info == 0 {
            return Err("refused");
        }
        world.spawn((ServerOwned, pid, Commands(Vec::new())));
        Ok(Walker { pid, applied: 0 })
    }

    fn disconnected(self, world: &mut hecs::World) {
        world.spawn((Left(vec![self.pid.0, self.applied as u64]),));
    }

    fn apply_input(&mut self, entity: u64, world: &mut hecs::World, input: u8) {
        self.applied += 1;
        let commands = world
            .query_one_mut::<&mut Commands>(hecs::Entity::from_bits(entity))
            .unwrap();
        commands.0.push(input);
    }
}

type Server = ServerSystem<char, (), Walker, ()>;
type Update = ServerMessage<Connected, PlayerId, WorldReplicaPack>;

fn body(update: &Update) -> Vec<u8> {
    match update {
        ServerMessage::Updates { updates, .. } => updates.body.clone(),
        _ => panic!("no update"),
    }
}

fn at_step(update: &Update) -> u64 {
    match update {
        ServerMessage::Updates { server_step, .. } => *server_step,
        _ => panic!("no update"),
    }
}

fn removed(update: &Update) -> Vec<NetId> {
    match update {
        ServerMessage::Updates { updates, .. } => updates.removed.clone(),
        _ => panic!("no update"),
    }
}

fn commands(world: &mut hecs::World) -> Vec<Vec<u8>> {
    world.query_mut::<&Commands>().into_iter().map(|(_, c)| c.0.clone()).collect()
}

fn left(world: &mut hecs::World) -> Vec<Vec<u64>> {
    let mut left: Vec<Vec<u64>> =
        world.query_mut::<&Left>().into_iter().map(|(_, l)| l.0.clone()).collect();
    left.sort();
    left
}

fn receive(
    server: &mut Server,
    world: &mut hecs::World,
    i: usize,
    received: FromClient,
) -> Reply {
    match server.session().receive(i, received) {
        Some((cid, event)) => server.handle(cid, event, world),
        None => None,
    }
}

fn connect(server: &mut Server, world: &mut hecs::World, i: usize) {
    let hello: FromClient = Ok(Some(ClientMessage::Connect { token: "x".to_string() }));
    let step = server.session().current_step();
    assert_eq!(
        receive(server, world, i, hello),
        Some(ServerMessage::Connected(Connected { step }))
    );
}

fn add_player(server: &mut Server, world: &mut hecs::World, i: usize, info: &[u8]) -> Reply {
    let add: FromClient = Ok(Some(ClientMessage::AddPlayer { player: info.to_vec() }));
    receive(server, world, i, add)
}

fn inputs(inputs: Vec<(Option<PlayerId>, PackedInput)>) -> FromClient {
    Ok(Some(ClientMessage::Inputs {
        at: InputStep { step: 1, next_update_step: 0 },
        inputs,
    }))
}

fn server_with_clients(count: usize) -> (Server, hecs::World) {
    let builder = ServerBuilder::new().with_player::<Walker>();
    let mut server: Server = builder.build(());
    let mut world = hecs::World::new();
    for i in 0..count {
        server.session().accept('c');
        connect(&mut server, &mut world, i);
    }
    (server, world)
}

#[test]
fn players_are_accepted_refused_or_not_understood() {
    let (mut server, mut world) = server_with_clients(1);
    assert_eq!(
        add_player(&mut server, &mut world, 0, &[5]),
        Some(ServerMessage::PlayerJoined { info: PlayerId(1) })
    );
    assert_eq!(add_player(&mut server, &mut world, 0, &[0]), None);
    assert_eq!(add_player(&mut server, &mut world, 0, &[]), None);
    // The ids of both were used up.
    assert_eq!(
        add_player(&mut server, &mut world, 0, &[5]),
        Some(ServerMessage::PlayerJoined { info: PlayerId(4) })
    );
    assert_eq!(world.len(), 2);
}

#[test]
fn inputs_reach_the_entity_of_the_player() {
    let (mut server, mut world) = server_with_clients(1);
    add_player(&mut server, &mut world, 0, &[5]);
    // Ids for entities come from the same source as ids for players.
    server.updates(&mut world);
    server.finish(&mut world, &vec![]);
    let received = inputs(vec![
        (Some(PlayerId(1)), (Ok(NetId(2)), vec![10])),
        (None, (Ok(NetId(2)), vec![11])),
        (Some(PlayerId(9)), (Ok(NetId(2)), vec![12])),
        (Some(PlayerId(1)), (Err(ZeroNetIdError), vec![13])),
        (Some(PlayerId(1)), (Ok(NetId(99)), vec![14])),
        (Some(PlayerId(1)), (Ok(NetId(2)), vec![])),
        (Some(PlayerId(1)), (Ok(NetId(2)), vec![15])),
    ]);
    assert_eq!(receive(&mut server, &mut world, 0, received), None);
    assert_eq!(commands(&mut world), vec![vec![10, 15]]);
}

#[test]
fn the_first_client_of_a_server_is_the_first() {
    let (mut server, _) = server_with_clients(2);
    assert_eq!(server.session().position(ClientId(1)), Some(0));
    assert_eq!(server.session().position(ClientId(2)), Some(1));
    assert_eq!(server.session().position(ClientId(0)), None);
}

#[test]
fn the_first_update_makes_one_entity() {
    let mut client = client();
    let mut world = hecs::World::new();
    let raw = [1, 3, 7];
    let updates = WorldUnpacked { raw: &raw, updated: 1, removed: 0 };
    let received: FromServer = Ok(Some(ServerMessage::Updates { server_step: 0, updates }));
    assert_eq!(client.receive(received, &mut world), Ok(true));
    assert_eq!(world.len(), 1);
    let rows: Vec<(u64, u64)> = world
        .query_mut::<(&NetId, &PlayerId)>()
        .into_iter()
        .map(|(_, (nid, pid))| (nid.0, pid.0))
        .collect();
    assert_eq!(rows, vec![(1, 7)]);
}

#[test]
fn players_leave_with_their_client() {
    let (mut server, mut world) = server_with_clients(2);
    add_player(&mut server, &mut world, 0, &[5]);
    add_player(&mut server, &mut world, 1, &[5]);
    add_player(&mut server, &mut world, 0, &[5]);
    server.updates(&mut world);
    server.finish(&mut world, &vec![]);
    let received = inputs(vec![(Some(PlayerId(3)), (Ok(NetId(4)), vec![10]))]);
    receive(&mut server, &mut world, 0, received);
    let lost: FromClient = Err("lost");
    assert_eq!(receive(&mut server, &mut world, 0, lost), None);
    assert_eq!(left(&mut world), vec![vec![1, 0], vec![3, 1]]);
    server.disconnect(ClientId(2), &mut world);
    assert_eq!(left(&mut world), vec![vec![1, 0], vec![2, 0], vec![3, 1]]);
    // Inputs of those who left are passed over.
    let received = inputs(vec![(Some(PlayerId(2)), (Ok(NetId(4)), vec![10]))]);
    receive(&mut server, &mut world, 1, received);
    assert_eq!(left(&mut world).len(), 3);
}

#[test]
fn each_client_gets_the_changes_since_it_acknowledged() {
    let (mut server, mut world) = server_with_clients(2);
    add_player(&mut server, &mut world, 0, &[5]);
    assert!(server.ready());
    let updates = server.updates(&mut world);
    assert_eq!(updates.len(), 2);
    assert_eq!(updates[0].0, 0);
    assert_eq!(updates[1].0, 1);
    assert_eq!(at_step(&updates[0].1), 0);
    assert_eq!(at_step(&updates[1].1), 0);
    // Id 2, the player's slot changed, player 1.
    assert_eq!(body(&updates[0].1), vec![2, 0b11, 1]);
    assert_eq!(body(&updates[1].1), vec![2, 0b11, 1]);
    server.finish(&mut world, &vec![]);

    let ack: FromClient = Ok(Some(ClientMessage::Inputs {
        at: InputStep { step: 1, next_update_step: 1 },
        inputs: vec![],
    }));
    receive(&mut server, &mut world, 0, ack);
    let updates = server.updates(&mut world);
    assert!(body(&updates[0].1).is_empty());
    assert_eq!(at_step(&updates[0].1), 1);
    assert_eq!(body(&updates[1].1), vec![2, 0b11, 1]);
    server.finish(&mut world, &vec![1]);
    assert_eq!(server.session().current_step(), 2);
    server.session().drop_disconnected();
    assert_eq!(server.session().len(), 1);
}

#[test]
fn rounds_go_on_until_nothing_arrives() {
    let (mut server, mut world) = server_with_clients(3);
    let mut round = server.first_round();
    let add: FromClient = Ok(Some(ClientMessage::AddPlayer { player: vec![5] }));
    let reply: Reply = server.receive(&mut round, 0, add, &mut world);
    assert_eq!(reply, Some(ServerMessage::PlayerJoined { info: PlayerId(1) }));
    let nothing: FromClient = Ok(None);
    let reply: Reply = server.receive(&mut round, 1, nothing, &mut world);
    assert_eq!(reply, None);
    let lost: FromClient = Err("lost");
    let reply: Reply = server.receive(&mut round, 2, lost, &mut world);
    assert_eq!(reply, None);
    let mut round = server.next_round(round).expect("a player was added");

    // The lost client is gone. Old inputs are dropped, but they arrived.
    assert_eq!(server.session().len(), 2);
    let reply: Reply = server.receive(&mut round, 0, inputs(vec![]), &mut world);
    assert_eq!(reply, None);
    let nothing: FromClient = Ok(None);
    let reply: Reply = server.receive(&mut round, 1, nothing, &mut world);
    assert_eq!(reply, None);
    let mut round = server.next_round(round).expect("inputs arrived");
    let old: FromClient = Ok(Some(ClientMessage::Inputs {
        at: InputStep { step: 0, next_update_step: 0 },
        inputs: vec![(Some(PlayerId(1)), (Ok(NetId(1)), vec![1]))],
    }));
    let reply: Reply = server.receive(&mut round, 0, old, &mut world);
    assert_eq!(reply, None);
    let nothing: FromClient = Ok(None);
    let reply: Reply = server.receive(&mut round, 1, nothing, &mut world);
    assert_eq!(reply, None);
    let mut round = server.next_round(round).expect("old inputs arrived");

    for i in 0..2 {
        let nothing: FromClient = Ok(None);
        let reply: Reply = server.receive(&mut round, i, nothing, &mut world);
        assert_eq!(reply, None);
    }
    assert!(server.next_round(round).is_none());
    assert_eq!(commands(&mut world), vec![Vec::<u8>::new()]);
}

#[test]
fn a_removed_id_is_told_once_and_not_used_again() {
    let (mut server, mut world) = server_with_clients(1);
    let first = world.spawn((ServerOwned,));
    server.updates(&mut world);
    server.finish(&mut world, &vec![]);
    world.despawn(first).unwrap();
    world.spawn((ServerOwned, PlayerId(9)));
    let updates = server.updates(&mut world);
    assert_eq!(removed(&updates[0].1), vec![NetId(1)]);
    // The new entity has another id.
    assert_eq!(body(&updates[0].1), vec![2, 0b11, 9, 1]);
    server.finish(&mut world, &vec![]);
    let updates = server.updates(&mut world);
    assert_eq!(removed(&updates[0].1), vec![]);
    server.finish(&mut world, &vec![]);
    assert_eq!(
        add_player(&mut server, &mut world, 0, &[5]),
        Some(ServerMessage::PlayerJoined { info: PlayerId(3) })
    );
}

#[test]
fn a_server_is_not_ready_for_a_client_of_the_future() {
    let (mut server, mut world) = server_with_clients(1);
    let ack: FromClient = Ok(Some(ClientMessage::Inputs {
        at: InputStep { step: 1, next_update_step: 7 },
        inputs: vec![],
    }));
    receive(&mut server, &mut world, 0, ack);
    assert!(!server.ready());
}

#[test]
fn a_dummy_player_takes_anything() {
    let builder = ServerSystem::builder().with_player::<DummyRemotePlayer>();
    let mut server: ServerSystem<char, (), DummyRemotePlayer, ()> = builder.build(());
    let mut world = hecs::World::new();
    server.session().accept('c');
    let hello: FromClient = Ok(Some(ClientMessage::Connect { token: "x".to_string() }));
    let (cid, event) = server.session().receive(0, hello).unwrap();
    let _: Reply = server.handle(cid, event, &mut world);
    let add: FromClient = Ok(Some(ClientMessage::AddPlayer { player: vec![] }));
    let (cid, event) = server.session().receive(0, add).unwrap();
    let reply: Reply = server.handle(cid, event, &mut world);
    assert_eq!(reply, Some(ServerMessage::PlayerJoined { info: PlayerId(1) }));
    let reply: Reply = server.handle(cid, Event::Disconnected, &mut world);
    assert_eq!(reply, None);
    assert_eq!(world.len(), 0);
}

#[test]
fn a_descriptor_is_added_once() {
    let builder = ServerBuilder::new().with_descriptor::<server::PlayerIdDescriptor>();
    let builder = builder.unwrap().with_player::<DummyRemotePlayer>();
    assert!(builder.with_descriptor::<server::PlayerIdDescriptor>().is_none());
    let builder = ClientBuilder::new().with_descriptor::<client::PlayerIdDescriptor>();
    let builder = builder.unwrap().with_player::<DummyLocalPlayer>();
    assert!(builder.with_descriptor::<client::PlayerIdDescriptor>().is_none());
}

/// Sends the entity's player number, and takes it away.
struct Once;

struct Pending(u8);

impl LocalPlayer for Once {
    fn replicate(entity: u64, world: &mut hecs::World) -> Option<Vec<u8>> {
        let pending = world.remove_one::<Pending>(hecs::Entity::from_bits(entity)).ok()?;
        Some(vec![pending.0])
    }
}

fn sent(inputs: Vec<(PlayerId, SentInput)>) -> Vec<(u64, u64, Vec<u8>)> {
    let mut sent: Vec<(u64, u64, Vec<u8>)> =
        inputs.into_iter().map(|(pid, (nid, pack))| (pid.0, nid.0, pack.input)).collect();
    sent.sort();
    sent
}

#[test]
fn commands_of_controlled_entities_are_sent() {
    let mut world = hecs::World::new();
    world.spawn((PlayerId(1), NetId(10), Pending(7)));
    world.spawn((PlayerId(2), NetId(11), Pending(8)));
    world.spawn((PlayerId(1), NetId(12)));
    world.spawn((PlayerId(1), Pending(9)));
    world.spawn((NetId(13), Pending(9)));
    world.spawn((PlayerId(1), NetId(14), Pending(6)));
    let mut controlled: HashSet<u64> = HashSet::new();
    controlled.insert(1);
    let inputs = send_inputs::<Once>(&controlled, &mut world);
    assert_eq!(sent(inputs), vec![(1, 10, vec![7]), (1, 14, vec![6])]);
    assert!(send_inputs::<Once>(&controlled, &mut world).is_empty());
    let inputs = send_inputs::<DummyLocalPlayer>(&controlled, &mut world);
    assert_eq!(sent(inputs).len(), 3);
}

type Client = ClientSystem<char, Once, ()>;

fn client() -> Client {
    let builder = ClientSystem::builder().with_player::<Once>();
    let mut client: Client = builder.build();
    let hello: FromServer = Ok(Some(ServerMessage::Connected(Connected { step: 3 })));
    match ClientSession::new('s', hello) {
        (Progress::Done(Ok(session)), None) => client.connect(session),
        _ => panic!("no session"),
    }
    client
}

#[test]
fn a_client_without_a_session_sends_nothing() {
    let builder = ClientBuilder::new().with_player::<Once>();
    let client: Client = builder.build();
    let mut world = hecs::World::new();
    let message: Option<ClientMessage<InputStep, (), SentInput>> = client.send_inputs(&mut world);
    assert!(message.is_none());
}

#[test]
fn a_client_sends_inputs_with_its_steps() {
    let mut client = client();
    let mut world = hecs::World::new();
    world.spawn((PlayerId(1), NetId(10), Pending(7)));
    assert_eq!(client.add_player(PlayerId(1)), Ok(PlayerId(1)));
    let message: Option<ClientMessage<InputStep, (), SentInput>> = client.send_inputs(&mut world);
    match message {
        Some(ClientMessage::Inputs { at, inputs }) => {
            assert_eq!(at, InputStep { step: 3, next_update_step: 0 });
            assert_eq!(inputs.len(), 1);
            assert_eq!(inputs[0].0, Some(PlayerId(1)));
            assert_eq!(inputs[0].1 .0, NetId(10));
            assert_eq!(inputs[0].1 .1.input, vec![7]);
        }
        _ => panic!("no inputs"),
    }
}

#[test]
fn a_player_is_added_once() {
    let mut client = client();
    assert_eq!(client.add_player(PlayerId(1)), Ok(PlayerId(1)));
    assert_eq!(
        client.add_player(PlayerId(1)),
        Err(PlayerIdCollision(PlayerId(1)))
    );
    assert_eq!(client.add_player(PlayerId(2)), Ok(PlayerId(2)));
}

#[test]
fn a_client_takes_updates_until_none_is_left() {
    let mut client = client();
    let mut world = hecs::World::new();
    let raw = [4, 0b11, 9];
    let updates = WorldUnpacked { raw: &raw, updated: 1, removed: 0 };
    let received: FromServer = Ok(Some(ServerMessage::Updates { server_step: 8, updates }));
    assert_eq!(client.receive(received, &mut world), Ok(true));
    let nothing: FromServer = Ok(None);
    assert_eq!(client.receive(nothing, &mut world), Ok(false));
    assert_eq!(client.session().as_ref().unwrap().current_step(), 5);
    let rows: Vec<(u64, u64)> = world
        .query_mut::<(&NetId, &PlayerId)>()
        .into_iter()
        .map(|(_, (nid, pid))| (nid.0, pid.0))
        .collect();
    assert_eq!(rows, vec![(4, 9)]);
}

#[test]
fn a_client_tells_what_went_wrong() {
    let mut client = client();
    let mut world = hecs::World::new();
    let lost: FromServer = Err("lost");
    assert_eq!(
        client.receive(lost, &mut world),
        Err(RunError::Session(ClientError::ChannelError { source: "lost" }))
    );
    let joined: FromServer = Ok(Some(ServerMessage::PlayerJoined { info: PlayerId(1) }));
    assert_eq!(
        client.receive(joined, &mut world),
        Err(RunError::Session(ClientError::UnexpectedMessage))
    );
    let updates = WorldUnpacked { raw: &[4, 0b10], updated: 1, removed: 0 };
    let received: FromServer = Ok(Some(ServerMessage::Updates { server_step: 8, updates }));
    assert_eq!(
        client.receive(received, &mut world),
        Err(RunError::Replicate(ReplicateError::BadMessage(BadMessage::InvalidMask)))
    );
    assert_eq!(client.session().as_ref().unwrap().current_step(), 4);
}
