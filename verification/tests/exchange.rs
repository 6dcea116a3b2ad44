use lloth::channel::tcp::{frame, RecvBuf};
use lloth::client::system::SentInput;
use lloth::client::{ClientSystem, LocalPlayer};
use lloth::client_server::{
    ClientMessage, Connected, InputStep, PlayerId, Progress, ServerMessage,
};
use lloth::lloth_core::client_server::ClientSession;
use lloth::nid::NetId;
use lloth::server::replicas::WorldReplicaPack;
use lloth::server::{RemotePlayer, ServerOwned, ServerSystem};
use lloth::wire::{
    read_client_message, read_server_message, write_client_message, write_server_message,
};

type ToServer = ClientMessage<InputStep, Vec<u8>, SentInput>;
type ToClient = ServerMessage<Connected, PlayerId, WorldReplicaPack>;

/// The last command that an entity got.
struct Command(u8);

/// A player with one entity.
struct Pilot;

impl RemotePlayer for Pilot {
    type Info = ();
    type Input = u8;
    type Error = ();

    fn decode_info(_bytes: &[u8]) -> Option<()> {
        Some(())
    }

    fn decode_input(bytes: &[u8]) -> Option<u8> {
        bytes.first().copied()
    }

    fn accept(_info: (), pid: PlayerId, world: &mut hecs::World) -> Result<Self, ()> {
        world.spawn((ServerOwned, pid, Command(0)));
        Ok(Pilot)
    }

    fn disconnected(self, _world: &mut hecs::World) {}

    fn apply_input(&mut self, entity: u64, world: &mut hecs::World, input: u8) {
        let entity = hecs::Entity::from_bits(entity);
        world.query_one_mut::<&mut Command>(entity).unwrap().0 = input;
    }
}

/// Always sends the same command.
struct Steady;

impl LocalPlayer for Steady {
    fn replicate(_entity: u64, _world: &mut hecs::World) -> Option<Vec<u8>> {
        Some(vec![42])
    }
}

type Server = ServerSystem<RecvBuf, (), Pilot, ()>;
type Client = ClientSystem<RecvBuf, Steady, ()>;

fn to_server(server: &mut Server, world: &mut hecs::World, message: &ToServer) -> Option<ToClient> {
    let bytes = frame(&write_client_message(message).unwrap());
    server.session().channel(0).fill(&bytes).unwrap();
    let packet = server.session().channel(0).recv().unwrap();
    let received: Result<_, ()> = Ok(read_client_message(&packet));
    let (cid, event) = server.session().receive(0, received)?;
    server.handle(cid, event, world)
}

fn packet(message: &ToClient) -> Vec<u8> {
    let mut buf = RecvBuf::new();
    buf.fill(&frame(&write_server_message(message).unwrap())).unwrap();
    buf.recv().unwrap()
}

fn step(server: &mut Server, server_world: &mut hecs::World, client: &mut Client, world: &mut hecs::World) {
    for (_, message) in server.updates(server_world) {
        let bytes = packet(&message);
        let received: Result<_, ()> = Ok(read_server_message(&bytes));
        assert_eq!(client.receive(received, world), Ok(true));
    }
    server.finish(server_world, &vec![]);
}

#[test]
fn a_client_and_a_server_talk() {
    let mut server: Server = ServerSystem::builder().with_player::<Pilot>().build(());
    let mut server_world = hecs::World::new();
    let mut client: Client = ClientSystem::builder().with_player::<Steady>().build();
    let mut world = hecs::World::new();

    // The session is opened.
    server.session().accept(RecvBuf::new());
    let hello: ToServer = ClientSession::<RecvBuf>::hello();
    let reply = to_server(&mut server, &mut server_world, &hello).unwrap();
    let bytes = packet(&reply);
    let received: Result<_, ()> = Ok(read_server_message(&bytes));
    match ClientSession::new(RecvBuf::new(), received) {
        (Progress::Done(Ok(session)), None) => client.connect(session),
        _ => panic!("no session"),
    }

    // A player is added.
    let add: ToServer = ClientMessage::AddPlayer { player: vec![] };
    let reply = to_server(&mut server, &mut server_world, &add).unwrap();
    let bytes = packet(&reply);
    let received: Result<_, ()> = Ok(read_server_message(&bytes));
    let session = client.session().as_mut().unwrap();
    assert_eq!(session.add_player(received), Progress::Done(Ok(Some(PlayerId(1)))));
    client.add_player(PlayerId(1)).unwrap();

    // The player's entity is replicated.
    step(&mut server, &mut server_world, &mut client, &mut world);
    let rows: Vec<(NetId, PlayerId)> = world
        .query_mut::<(&NetId, &PlayerId)>()
        .into_iter()
        .map(|(_, (nid, pid))| (*nid, *pid))
        .collect();
    assert_eq!(rows, vec![(NetId(2), PlayerId(1))]);

    // The command reaches it, and the update is acknowledged.
    let inputs: ToServer = client.send_inputs(&mut world).unwrap();
    assert!(to_server(&mut server, &mut server_world, &inputs).is_none());
    let commands: Vec<u8> =
        server_world.query_mut::<&Command>().into_iter().map(|(_, c)| c.0).collect();
    assert_eq!(commands, vec![42]);
    let updates = server.updates(&mut server_world);
    match &updates[0].1 {
        ServerMessage::Updates { server_step: 1, updates } => assert!(updates.body.is_empty()),
        _ => panic!("no update"),
    }
    server.finish(&mut server_world, &vec![]);

    // The entity goes.
    let entity = server_world.query_mut::<&Command>().into_iter().next().unwrap().0;
    server_world.despawn(entity).unwrap();
    step(&mut server, &mut server_world, &mut client, &mut world);
    assert_eq!(world.len(), 0);
}
