use lloth::client_server::client::TimedConnected;
use lloth::client_server::{ClientMessage, Connected, InputStep, PlayerId, ServerMessage};
use lloth::nid::{NetId, ZeroNetIdError};
use lloth::schema::InputPack;
use lloth::server::replicas::WorldReplicaPack;
use lloth::wire::{
    read_client_message, read_server_message, write_client_message, write_server_message,
};

type ToServer = ClientMessage<InputStep, Vec<u8>, (NetId, InputPack)>;
type ToClient = ServerMessage<Connected, PlayerId, WorldReplicaPack>;

fn input(player: Option<PlayerId>, nid: u64, bytes: &[u8]) -> (Option<PlayerId>, (NetId, InputPack)) {
    (player, (NetId(nid), InputPack { input: bytes.to_vec() }))
}

#[test]
fn a_token_stands_behind_the_fixed_part() {
    let message: ToServer = ClientMessage::Connect { token: "lloth".to_string() };
    let bytes = write_client_message(&message).unwrap();
    let mut expected = vec![0, 0, 0, 0, 5, 0, 0, 0, 28, 0, 0, 0];
    expected.extend([0; 16]);
    expected.extend(b"lloth");
    assert_eq!(bytes, expected);
    assert_eq!(
        read_client_message::<InputStep>(&bytes),
        Some(ClientMessage::Connect { token: "lloth".to_string() })
    );
}

#[test]
fn a_player_stands_behind_the_fixed_part() {
    let message: ToServer = ClientMessage::AddPlayer { player: vec![9, 8, 7] };
    let bytes = write_client_message(&message).unwrap();
    assert_eq!(&bytes[..12], &[1, 0, 0, 0, 3, 0, 0, 0, 28, 0, 0, 0]);
    assert_eq!(&bytes[28..], &[9, 8, 7]);
    assert_eq!(
        read_client_message::<InputStep>(&bytes),
        Some(ClientMessage::AddPlayer { player: vec![9, 8, 7] })
    );
}

#[test]
fn inputs_are_parts_and_then_bytes() {
    let message: ToServer = ClientMessage::Inputs {
        at: InputStep { step: 0x0102, next_update_step: 3 },
        inputs: vec![input(Some(PlayerId(4)), 5, &[10, 11]), input(None, 0, &[12])],
    };
    let bytes = write_client_message(&message).unwrap();
    let mut expected = vec![2, 0, 0, 0, 2, 1, 0, 0, 0, 0, 0, 0, 3, 0, 0, 0, 0, 0, 0, 0];
    expected.extend([2, 0, 0, 0, 28, 0, 0, 0]);
    expected.extend([4, 0, 0, 0, 0, 0, 0, 0, 5, 0, 0, 0, 0, 0, 0, 0, 76, 0, 0, 0, 2, 0, 0, 0]);
    expected.extend([0, 0, 0, 0, 0, 0, 0, 0, 0, 0, 0, 0, 0, 0, 0, 0, 78, 0, 0, 0, 1, 0, 0, 0]);
    expected.extend([10, 11, 12]);
    assert_eq!(bytes, expected);
    let mut padded = bytes;
    padded.extend([0xFE; 9]);
    assert_eq!(
        read_client_message(&padded),
        Some(ClientMessage::Inputs {
            at: InputStep { step: 0x0102, next_update_step: 3 },
            inputs: vec![
                (Some(PlayerId(4)), (Ok(NetId(5)), vec![10, 11])),
                (None, (Err(ZeroNetIdError), vec![12])),
            ],
        })
    );
}

#[test]
fn broken_client_messages_are_refused() {
    assert_eq!(read_client_message::<InputStep>(&[]), None);
    assert_eq!(read_client_message::<InputStep>(&[0; 27]), None);
    // An unknown kind.
    let mut bytes = vec![3, 0, 0, 0];
    bytes.extend([0; 24]);
    assert_eq!(read_client_message::<InputStep>(&bytes), None);
    // A token that ends behind the message.
    let mut bytes = vec![0, 0, 0, 0, 2, 0, 0, 0, 28, 0, 0, 0];
    bytes.extend([0; 16]);
    bytes.push(b'x');
    assert_eq!(read_client_message::<InputStep>(&bytes), None);
    // A token that is no text.
    let mut bytes = vec![0, 0, 0, 0, 1, 0, 0, 0, 28, 0, 0, 0];
    bytes.extend([0; 16]);
    bytes.push(0xFF);
    assert_eq!(read_client_message::<InputStep>(&bytes), None);
    // More inputs than there are.
    let mut bytes = vec![2, 0, 0, 0];
    bytes.extend([0; 16]);
    bytes.extend([255, 255, 255, 255, 28, 0, 0, 0]);
    bytes.extend([0; 24]);
    assert_eq!(read_client_message::<InputStep>(&bytes), None);
    // An input that ends behind the message.
    let mut bytes = vec![2, 0, 0, 0];
    bytes.extend([0; 16]);
    bytes.extend([1, 0, 0, 0, 28, 0, 0, 0]);
    bytes.extend([1, 0, 0, 0, 0, 0, 0, 0, 1, 0, 0, 0, 0, 0, 0, 0, 52, 0, 0, 0, 1, 0, 0, 0]);
    assert_eq!(read_client_message::<InputStep>(&bytes), None);
}

#[test]
fn client_messages_fit_in_a_packet() {
    let message: ToServer = ClientMessage::AddPlayer { player: vec![1; 65500] };
    assert_eq!(write_client_message(&message).unwrap().len(), 65528);
    let message: ToServer = ClientMessage::AddPlayer { player: vec![1; 65501] };
    assert!(write_client_message(&message).is_none());
    let message: ToServer = ClientMessage::Inputs {
        at: InputStep { step: 1, next_update_step: 1 },
        inputs: (0..3000).map(|_| input(Some(PlayerId(1)), 1, &[])).collect(),
    };
    assert!(write_client_message(&message).is_none());
    let message: ToServer = ClientMessage::Inputs {
        at: InputStep { step: 1, next_update_step: 1 },
        inputs: vec![input(Some(PlayerId(1)), 1, &[0; 40000]), input(None, 1, &[0; 40000])],
    };
    assert!(write_client_message(&message).is_none());
}

#[test]
fn a_server_opens_sessions_and_answers_players() {
    let message: ToClient = ServerMessage::Connected(Connected { step: 258 });
    let bytes = write_server_message(&message).unwrap();
    assert_eq!(bytes, vec![0, 0, 0, 0, 2, 1, 0, 0, 0, 0, 0, 0]);
    assert!(matches!(
        read_server_message::<Connected>(&bytes),
        Some(ServerMessage::Connected(Connected { step: 258 }))
    ));

    let message: ToClient = ServerMessage::PlayerJoined { info: PlayerId(7) };
    let bytes = write_server_message(&message).unwrap();
    assert_eq!(bytes, vec![1, 0, 0, 0, 7, 0, 0, 0, 0, 0, 0, 0]);
    assert!(matches!(
        read_server_message::<Connected>(&bytes),
        Some(ServerMessage::PlayerJoined { info: Some(PlayerId(7)) })
    ));
    let mut nobody = bytes;
    nobody[4] = 0;
    assert!(matches!(
        read_server_message::<Connected>(&nobody),
        Some(ServerMessage::PlayerJoined { info: None })
    ));
}

#[test]
fn an_update_travels_behind_the_fixed_part() {
    let message: ToClient = ServerMessage::Updates {
        server_step: 9,
        updates: WorldReplicaPack {
            updated: 2,
            removed: vec![NetId(1)],
            body: vec![5, 6, 7, 1],
        },
    };
    let bytes = write_server_message(&message).unwrap();
    let mut expected = vec![2, 0, 0, 0, 9, 0, 0, 0, 0, 0, 0, 0];
    expected.extend([24, 0, 0, 0, 2, 0, 0, 0, 1, 0, 0, 0, 5, 6, 7, 1]);
    assert_eq!(bytes, expected);
    match read_server_message::<Connected>(&bytes) {
        Some(ServerMessage::Updates { server_step, updates }) => {
            assert_eq!(server_step, 9);
            assert_eq!(updates.updated, 2);
            assert_eq!(updates.removed, 1);
            assert_eq!(updates.raw, &[5, 6, 7, 1]);
        }
        _ => panic!("no updates"),
    }
}

#[test]
fn broken_server_messages_are_refused() {
    assert!(read_server_message::<Connected>(&[0; 11]).is_none());
    assert!(read_server_message::<Connected>(&[0; 12]).is_some());
    let mut bytes = vec![2, 0, 0, 0];
    bytes.extend([0; 19]);
    assert!(read_server_message::<Connected>(&bytes).is_none());
    bytes.push(0);
    assert!(read_server_message::<Connected>(&bytes).is_some());
    let mut bytes = vec![3, 0, 0, 0];
    bytes.extend([0; 20]);
    assert!(read_server_message::<Connected>(&bytes).is_none());
    let mut bytes = vec![2, 0, 0, 0, 0, 0, 0, 0, 0, 0, 0, 0, 25, 0, 0, 0];
    bytes.extend([0; 8]);
    assert!(read_server_message::<Connected>(&bytes).is_none());
    bytes.push(1);
    assert!(read_server_message::<Connected>(&bytes).is_some());
}

#[test]
fn server_messages_fit_in_a_packet() {
    let update = |len: usize| -> ToClient {
        ServerMessage::Updates {
            server_step: 9,
            updates: WorldReplicaPack { updated: 1, removed: vec![], body: vec![0; len] },
        }
    };
    assert_eq!(write_server_message(&update(65504)).unwrap().len(), 65528);
    assert!(write_server_message(&update(65505)).is_none());
}

#[test]
fn timed_clients_tell_their_step_alone() {
    let message: ClientMessage<u64, Vec<u8>, (NetId, InputPack)> = ClientMessage::Inputs {
        at: 0x0102,
        inputs: vec![input(Some(PlayerId(4)), 5, &[10, 11])],
    };
    let bytes = write_client_message(&message).unwrap();
    let mut expected = vec![2, 0, 0, 0, 2, 1, 0, 0, 0, 0, 0, 0, 1, 0, 0, 0, 20, 0, 0, 0];
    expected.extend([4, 0, 0, 0, 0, 0, 0, 0, 5, 0, 0, 0, 0, 0, 0, 0, 44, 0, 0, 0, 2, 0, 0, 0]);
    expected.extend([10, 11]);
    assert_eq!(bytes, expected);
    assert_eq!(
        read_client_message::<u64>(&bytes),
        Some(ClientMessage::Inputs {
            at: 0x0102,
            inputs: vec![(Some(PlayerId(4)), (Ok(NetId(5)), vec![10, 11]))],
        })
    );
    let message: ClientMessage<u64, Vec<u8>, (NetId, InputPack)> =
        ClientMessage::Connect { token: "astral".to_string() };
    let bytes = write_client_message(&message).unwrap();
    let mut expected = vec![0, 0, 0, 0, 6, 0, 0, 0, 20, 0, 0, 0];
    expected.extend([0; 8]);
    expected.extend(b"astral");
    assert_eq!(bytes, expected);
    assert_eq!(
        read_client_message::<u64>(&bytes),
        Some(ClientMessage::Connect { token: "astral".to_string() })
    );
    assert_eq!(read_client_message::<u64>(&[0; 19]), None);
}

#[test]
fn timed_servers_tell_how_long_steps_are() {
    let hello = TimedConnected { step: 258, step_delta_ns: 20 };
    let message: ServerMessage<TimedConnected, PlayerId, WorldReplicaPack> =
        ServerMessage::Connected(hello);
    let bytes = write_server_message(&message).unwrap();
    let mut expected = vec![0, 0, 0, 0, 2, 1, 0, 0, 0, 0, 0, 0];
    expected.extend([20, 0, 0, 0, 0, 0, 0, 0]);
    assert_eq!(bytes, expected);
    match read_server_message::<TimedConnected>(&bytes) {
        Some(ServerMessage::Connected(read)) => assert_eq!(read, hello),
        _ => panic!("no session"),
    }
    let message: ServerMessage<TimedConnected, PlayerId, WorldReplicaPack> =
        ServerMessage::PlayerJoined { info: PlayerId(7) };
    let bytes = write_server_message(&message).unwrap();
    let mut expected = vec![1, 0, 0, 0, 7, 0, 0, 0, 0, 0, 0, 0];
    expected.extend([0; 8]);
    assert_eq!(bytes, expected);
    assert!(matches!(
        read_server_message::<TimedConnected>(&bytes),
        Some(ServerMessage::PlayerJoined { info: Some(PlayerId(7)) })
    ));
    assert!(read_server_message::<TimedConnected>(&bytes[..19]).is_none());
    let message: ServerMessage<TimedConnected, PlayerId, WorldReplicaPack> =
        ServerMessage::Updates {
            server_step: 9,
            updates: WorldReplicaPack { updated: 1, removed: vec![], body: vec![5, 6] },
        };
    let bytes = write_server_message(&message).unwrap();
    assert_eq!(&bytes[12..], &[24, 0, 0, 0, 1, 0, 0, 0, 0, 0, 0, 0, 5, 6]);
    match read_server_message::<TimedConnected>(&bytes) {
        Some(ServerMessage::Updates { server_step: 9, updates }) => {
            assert_eq!(updates.raw, &[5, 6]);
        }
        _ => panic!("no updates"),
    }
}
