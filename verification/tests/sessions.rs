use lloth::client_server::client::TimedConnected;
use lloth::client_server::{
    ClientError, ClientId, ClientMessage, ClientSession, Connected, Event, InputStep, PlayerId,
    Progress, ServerMessage, ServerSession, Updates,
};
use lloth::lloth_core::client_server::ClientSession as SteppedSession;

type Timed = Result<Option<ServerMessage<TimedConnected, u8, u8>>, &'static str>;
type Plain = Result<Option<ServerMessage<Connected, u8, u8>>, &'static str>;
type FromClient = Result<Option<ClientMessage<InputStep, u8, u8>>, &'static str>;

fn timed(step: u64, step_delta_ns: u64) -> ClientSession<char> {
    let hello: Timed = Ok(Some(ServerMessage::Connected(TimedConnected {
        step,
        step_delta_ns,
    })));
    match ClientSession::new('c', hello) {
        (Progress::Done(Ok(session)), None) => session,
        _ => panic!("session is not open"),
    }
}

fn stepped(step: u64) -> SteppedSession<char> {
    let hello: Plain = Ok(Some(ServerMessage::Connected(Connected { step })));
    match SteppedSession::new('c', hello) {
        (Progress::Done(Ok(session)), None) => session,
        _ => panic!("session is not open"),
    }
}

#[test]
fn opening_passes_updates_over_and_waits() {
    let updates: Plain = Ok(Some(ServerMessage::Updates { server_step: 1, updates: 2 }));
    assert!(matches!(SteppedSession::new('c', updates), (Progress::Again, Some('c'))));
    let nothing: Plain = Ok(None);
    assert!(matches!(SteppedSession::new('c', nothing), (Progress::Wait, Some('c'))));
}

#[test]
fn opening_fails_on_other_messages_and_errors() {
    let joined: Plain = Ok(Some(ServerMessage::PlayerJoined { info: 1 }));
    assert!(matches!(
        SteppedSession::new('c', joined),
        (Progress::Done(Err(ClientError::UnexpectedMessage)), None)
    ));
    let failed: Plain = Err("lost");
    assert!(matches!(
        SteppedSession::new('c', failed),
        (Progress::Done(Err(ClientError::ChannelError { source: "lost" })), None)
    ));
}

#[test]
fn tokens_tell_the_sessions_apart() {
    let plain: ClientMessage<u8, u8, u8> = SteppedSession::<char>::hello();
    assert_eq!(plain, ClientMessage::Connect { token: "lloth".to_string() });
    let timed: ClientMessage<u8, u8, u8> = ClientSession::<char>::hello();
    assert_eq!(timed, ClientMessage::Connect { token: "astral".to_string() });
}

#[test]
fn adding_a_player_waits_for_the_answer() {
    let mut session = stepped(5);
    let updates: Plain = Ok(Some(ServerMessage::Updates { server_step: 1, updates: 2 }));
    assert_eq!(session.add_player(updates), Progress::Again);
    let nothing: Plain = Ok(None);
    assert_eq!(session.add_player(nothing), Progress::Wait);
    let joined: Plain = Ok(Some(ServerMessage::PlayerJoined { info: 9 }));
    assert_eq!(session.add_player(joined), Progress::Done(Ok(9)));
    let hello: Plain = Ok(Some(ServerMessage::Connected(Connected { step: 1 })));
    assert_eq!(
        session.add_player(hello),
        Progress::Done(Err(ClientError::UnexpectedMessage))
    );
    let failed: Plain = Err("lost");
    assert_eq!(
        session.add_player(failed),
        Progress::Done(Err(ClientError::ChannelError { source: "lost" }))
    );
    assert_eq!(session.current_step(), 5);
}

#[test]
fn a_stepped_session_acknowledges_updates() {
    let mut session = stepped(5);
    let message: ClientMessage<InputStep, u8, u8> = session.send_inputs(vec![(PlayerId(3), 4)]);
    assert_eq!(
        message,
        ClientMessage::Inputs {
            at: InputStep { step: 5, next_update_step: 0 },
            inputs: vec![(Some(PlayerId(3)), 4)],
        }
    );
    let updates: Plain = Ok(Some(ServerMessage::Updates { server_step: 41, updates: 2 }));
    assert_eq!(
        session.advance(updates),
        Ok(Some(Updates { server_step: 41, updates: 2 }))
    );
    assert_eq!(session.current_step(), 6);
    let nothing: Plain = Ok(None);
    assert_eq!(session.advance(nothing), Ok(None));
    assert_eq!(session.current_step(), 7);
    let message: ClientMessage<InputStep, u8, u8> = session.send_inputs(vec![]);
    assert_eq!(
        message,
        ClientMessage::Inputs {
            at: InputStep { step: 7, next_update_step: 42 },
            inputs: vec![],
        }
    );
    assert_eq!(*session.channel(), 'c');
}

#[test]
fn a_stepped_session_does_not_step_on_failure() {
    let mut session = stepped(5);
    let joined: Plain = Ok(Some(ServerMessage::PlayerJoined { info: 9 }));
    assert_eq!(session.advance(joined), Err(ClientError::UnexpectedMessage));
    let failed: Plain = Err("lost");
    assert_eq!(
        session.advance(failed),
        Err(ClientError::ChannelError { source: "lost" })
    );
    assert_eq!(session.current_step(), 5);
}

#[test]
fn a_timed_session_advances_by_one_step() {
    let mut session = timed(10, 20);
    let nothing: Timed = Ok(None);
    assert_eq!(session.advance(50, nothing), Ok(None));
    assert_eq!(session.current_step(), 11);
    let updates: Timed = Ok(Some(ServerMessage::Updates { server_step: 3, updates: 2 }));
    assert_eq!(
        session.advance(1, updates),
        Ok(Some(Updates { server_step: 3, updates: 2 }))
    );
    assert_eq!(session.current_step(), 12);
    let failed: Timed = Err("lost");
    assert_eq!(
        session.advance(65, failed),
        Err(ClientError::ChannelError { source: "lost" })
    );
    assert_eq!(session.current_step(), 13);
    let message: ClientMessage<u64, u8, u8> = session.send_inputs(vec![(PlayerId(1), 2)]);
    assert_eq!(
        message,
        ClientMessage::Inputs { at: 13, inputs: vec![(Some(PlayerId(1)), 2)] }
    );
}

#[test]
fn the_step_counts_the_calls() {
    let mut once = timed(0, 7);
    let mut often = timed(0, 7);
    once.advance::<u8, u8, &str>(100, Ok(None)).unwrap();
    for _ in 0..50 {
        often.advance::<u8, u8, &str>(2, Ok(None)).unwrap();
    }
    assert_eq!(once.current_step(), 1);
    assert_eq!(often.current_step(), 50);
}

fn connect(session: &mut ServerSession<char, ()>, i: usize) {
    let message: FromClient = Ok(Some(ClientMessage::Connect { token: "x".to_string() }));
    match session.receive(i, message) {
        Some((_, Event::ClientConnect(event))) => {
            let step = session.current_step();
            let reply: Option<ServerMessage<Connected, u8, u8>> = event.accept(session);
            assert_eq!(reply, Some(ServerMessage::Connected(Connected { step })));
        }
        _ => panic!("not connected"),
    }
}

fn inputs(step: u64, next_update_step: u64) -> FromClient {
    Ok(Some(ClientMessage::Inputs {
        at: InputStep { step, next_update_step },
        inputs: vec![(Some(PlayerId(1)), 10), (None, 11), (Some(PlayerId(2)), 12)],
    }))
}

#[test]
fn a_new_server_session_is_at_step_zero() {
    let session: ServerSession<char, &str> = ServerSession::new("listener");
    assert_eq!(session.current_step(), 0);
    assert_eq!(session.len(), 0);
    assert!(session.due().is_empty());
}

#[test]
fn clients_connect_add_players_and_send_inputs() {
    let mut session: ServerSession<char, ()> = ServerSession::new(());
    session.accept('a');
    session.accept('b');
    connect(&mut session, 0);
    connect(&mut session, 1);
    assert_eq!(*session.channel(1), 'b');

    let add: FromClient = Ok(Some(ClientMessage::AddPlayer { player: 77 }));
    match session.receive(1, add) {
        Some((ClientId(2), Event::AddPlayer(event))) => {
            assert_eq!(*event.player(), 77);
            let reply: ServerMessage<Connected, u16, u8> = event.accept(5);
            assert_eq!(reply, ServerMessage::PlayerJoined { info: 5 });
        }
        _ => panic!("no player"),
    }

    match session.receive(0, inputs(3, 0)) {
        Some((ClientId(1), Event::Inputs(event))) => {
            assert_eq!(event.step(), 3);
            assert_eq!(event.inputs(), vec![(PlayerId(1), &10), (PlayerId(2), &12)]);
            assert_eq!(event.inputs().len(), 2);
        }
        _ => panic!("no inputs"),
    }
    let nothing: FromClient = Ok(None);
    assert_eq!(session.receive(0, nothing), None);
}

#[test]
fn a_player_is_accepted_with_what_a_function_makes_of_it() {
    let mut session: ServerSession<char, ()> = ServerSession::new(());
    session.accept('a');
    connect(&mut session, 0);
    let add: FromClient = Ok(Some(ClientMessage::AddPlayer { player: 7 }));
    match session.receive(0, add) {
        Some((_, Event::AddPlayer(event))) => {
            let reply: ServerMessage<Connected, u16, u8> =
                event.accept_with(|player| player as u16 + 1);
            assert_eq!(reply, ServerMessage::PlayerJoined { info: 8 });
        }
        _ => panic!("no player"),
    }
    for player in [7, 8] {
        let add: FromClient = Ok(Some(ClientMessage::AddPlayer { player }));
        match session.receive(0, add) {
            Some((_, Event::AddPlayer(event))) => {
                let reply: Result<ServerMessage<Connected, u16, u8>, &str> = event
                    .try_accept_with(|player| if player == 7 { Ok(70) } else { Err("refused") });
                if player == 7 {
                    assert_eq!(reply, Ok(ServerMessage::PlayerJoined { info: 70 }));
                } else {
                    assert_eq!(reply, Err("refused"));
                }
            }
            _ => panic!("no player"),
        }
    }
}

#[test]
fn pending_clients_may_only_connect() {
    let mut session: ServerSession<char, ()> = ServerSession::new(());
    session.accept('a');
    let add: FromClient = Ok(Some(ClientMessage::AddPlayer { player: 77 }));
    assert_eq!(session.receive(0, add), Some((ClientId(1), Event::Disconnected)));
    assert_eq!(session.receive(0, inputs(1, 1)), Some((ClientId(1), Event::Disconnected)));
    session.drop_disconnected();
    assert_eq!(session.len(), 1);
    connect(&mut session, 0);
}

#[test]
fn connecting_twice_disconnects() {
    let mut session: ServerSession<char, ()> = ServerSession::new(());
    session.accept('a');
    session.accept('b');
    connect(&mut session, 0);
    connect(&mut session, 1);
    let again: FromClient = Ok(Some(ClientMessage::Connect { token: "x".to_string() }));
    assert_eq!(session.receive(0, again), Some((ClientId(1), Event::Disconnected)));
    session.drop_disconnected();
    assert_eq!(session.len(), 1);
    assert_eq!(*session.channel(0), 'b');
    assert_eq!(session.position(ClientId(1)), None);
    assert_eq!(session.position(ClientId(2)), Some(0));
}

#[test]
fn a_failing_channel_disconnects() {
    let mut session: ServerSession<char, ()> = ServerSession::new(());
    session.accept('a');
    let failed: FromClient = Err("lost");
    assert_eq!(session.receive(0, failed), Some((ClientId(1), Event::Disconnected)));
    session.drop_disconnected();
    assert_eq!(session.len(), 0);
}

#[test]
fn client_ids_are_never_used_again() {
    let mut session: ServerSession<char, ()> = ServerSession::new(());
    session.accept('a');
    let failed: FromClient = Err("lost");
    session.receive(0, failed);
    session.drop_disconnected();
    session.accept('b');
    assert_eq!(session.position(ClientId(1)), None);
    assert_eq!(session.position(ClientId(2)), Some(0));
}

#[test]
fn old_inputs_are_dropped_and_still_acknowledge() {
    let mut session: ServerSession<char, ()> = ServerSession::new(());
    session.accept('a');
    connect(&mut session, 0);
    for _ in 0..5 {
        session.advance(&vec![]);
    }
    assert!(matches!(session.receive(0, inputs(7, 1)), Some((_, Event::Inputs(_)))));
    assert_eq!(session.due(), vec![(0, 4)]);
    assert_eq!(session.receive(0, inputs(6, 3)), None);
    assert_eq!(session.due(), vec![(0, 2)]);
    assert!(matches!(session.receive(0, inputs(7, 5)), Some((_, Event::Inputs(_)))));
    assert_eq!(session.due(), vec![(0, 0)]);
}

#[test]
fn updates_are_due_for_connected_clients_alone() {
    let mut session: ServerSession<char, ()> = ServerSession::new(());
    for channel in ['a', 'b', 'c'] {
        session.accept(channel);
    }
    connect(&mut session, 0);
    connect(&mut session, 2);
    session.advance(&vec![]);
    session.advance(&vec![]);
    assert_eq!(session.current_step(), 2);
    assert_eq!(session.due(), vec![(0, 2), (2, 2)]);
    session.advance(&vec![2]);
    assert_eq!(session.due(), vec![(0, 3)]);
    session.drop_disconnected();
    assert_eq!(session.len(), 2);
}

#[test]
fn a_claim_to_have_seen_the_future_is_noticed() {
    let mut session: ServerSession<char, ()> = ServerSession::new(());
    session.accept('a');
    connect(&mut session, 0);
    session.receive(0, inputs(1, 0));
    assert!(session.is_in_time());
    session.receive(0, inputs(2, 1));
    assert!(!session.is_in_time());
    session.advance(&vec![]);
    assert!(session.is_in_time());
}

#[test]
fn ids_follow_arrival_and_are_not_reused() {
    let mut session: ServerSession<char, ()> = ServerSession::new(());
    for channel in ['a', 'b', 'c'] {
        session.accept(channel);
    }
    let lost: FromClient = Err("lost");
    assert_eq!(session.receive(1, lost), Some((ClientId(2), Event::Disconnected)));
    session.drop_disconnected();
    session.accept('d');
    assert_eq!(session.len(), 3);
    for (i, (id, channel)) in [(1, 'a'), (3, 'c'), (4, 'd')].into_iter().enumerate() {
        assert_eq!(session.position(ClientId(id)), Some(i));
        assert_eq!(*session.channel(i), channel);
    }
    assert_eq!(session.position(ClientId(2)), None);
}
