//! What the client's side of sessions means: the laws of opening, joining and advancing, stated of
//! what the functions are given and give.

use crate::client_server::{
    ClientError, ClientMessage, ClientSession, Connected, InputStep, PlayerId, Progress,
    ServerMessage, Updates,
};
use crate::client_server::client::TimedConnected;
use crate::lloth_core::client_server::ClientSession as SteppedSession;
use vstd::prelude::*;

verus! {

/// What a client waits for does not come of anything else. A session is opened exactly where the
/// server says that the client is connected. Updates that come earlier are passed over. Where
/// nothing came the client waits. Any other message, or a channel that failed, ends it.
pub proof fn sessions_open_when_connected<C, J, U, E>(
    channel: C,
    received: Result<Option<ServerMessage<Connected, J, U>>, E>,
    result: (Progress<Result<SteppedSession<C>, ClientError<E>>>, Option<C>),
)
    requires
        call_ensures(SteppedSession::<C>::new::<J, U, E>, (channel, received), result),
    ensures
        received matches Ok(Some(ServerMessage::Connected(hello))) ==> (result.0
            matches Progress::Done(Ok(session)) && session.step() == hello.step
            && session.next_update_step() == 0 && session.link() == channel),
        received matches Ok(Some(ServerMessage::PlayerJoined { .. })) ==> (result.0
            matches Progress::Done(Err(err)) && err is UnexpectedMessage),
        received matches Ok(Some(ServerMessage::Updates { .. })) ==> result.0 is Again && result.1
            == Some(channel),
        received matches Ok(None) ==> result.0 is Wait && result.1 == Some(channel),
        received matches Err(source) ==> (result.0 matches Progress::Done(Err(err)) && (err
            matches ClientError::ChannelError { source: cause } && cause == source)),
{
}

/// The same of a session that keeps time: it takes the step and the length of steps that the server
/// tells.
pub proof fn timed_sessions_open_when_connected<C, J, U, E>(
    channel: C,
    received: Result<Option<ServerMessage<TimedConnected, J, U>>, E>,
    result: (Progress<Result<ClientSession<C>, ClientError<E>>>, Option<C>),
)
    requires
        call_ensures(ClientSession::<C>::new::<J, U, E>, (channel, received), result),
    ensures
        received matches Ok(Some(ServerMessage::Connected(hello))) ==> (result.0
            matches Progress::Done(Ok(session)) && session.step() == hello.step
            && session.step_delta_ns() == hello.step_delta_ns && session.step_ns() == 0
            && session.link() == channel),
        received matches Ok(Some(ServerMessage::PlayerJoined { .. })) ==> (result.0
            matches Progress::Done(Err(err)) && err is UnexpectedMessage),
        received matches Ok(Some(ServerMessage::Updates { .. })) ==> result.0 is Again && result.1
            == Some(channel),
        received matches Ok(None) ==> result.0 is Wait && result.1 == Some(channel),
        received matches Err(source) ==> (result.0 matches Progress::Done(Err(err)) && (err
            matches ClientError::ChannelError { source: cause } && cause == source)),
{
}

/// A player has joined exactly where the server says so, with what the server tells. Updates that
/// come earlier are passed over. The session does not change.
pub proof fn players_have_joined_when_told<C, D, J, U, E>(
    session: &mut SteppedSession<C>,
    received: Result<Option<ServerMessage<Connected, J, U>>, E>,
    progress: Progress<Result<J, ClientError<E>>>,
    timed: &mut ClientSession<D>,
    heard: Result<Option<ServerMessage<TimedConnected, J, U>>, E>,
    answer: Progress<Result<J, ClientError<E>>>,
)
    requires
        call_ensures(SteppedSession::<C>::add_player::<J, U, E>, (session, received), progress),
        call_ensures(ClientSession::<D>::add_player::<J, U, E>, (timed, heard), answer),
    ensures
        *final(session) == *old(session),
        *final(timed) == *old(timed),
        received matches Ok(Some(ServerMessage::PlayerJoined { info })) ==> progress
            == Progress::Done(Ok::<J, ClientError<E>>(info)),
        received matches Ok(Some(ServerMessage::Connected(_))) ==> (progress
            matches Progress::Done(Err(err)) && err is UnexpectedMessage),
        received matches Ok(Some(ServerMessage::Updates { .. })) ==> progress is Again,
        received matches Ok(None) ==> progress is Wait,
        received matches Err(source) ==> (progress matches Progress::Done(Err(err)) && (err
            matches ClientError::ChannelError { source: cause } && cause == source)),
        heard matches Ok(Some(ServerMessage::PlayerJoined { info })) ==> answer == Progress::Done(
            Ok::<J, ClientError<E>>(info),
        ),
        heard matches Ok(Some(ServerMessage::Connected(_))) ==> (answer matches Progress::Done(
            Err(err),
        ) && err is UnexpectedMessage),
        heard matches Ok(Some(ServerMessage::Updates { .. })) ==> answer is Again,
        heard matches Ok(None) ==> answer is Wait,
        heard matches Err(source) ==> (answer matches Progress::Done(Err(err)) && (err
            matches ClientError::ChannelError { source: cause } && cause == source)),
{
}

/// An update that came is handed on as it is, and is from then on what the client has seen: the
/// next that it lacks is the one after. Where nothing came the client has seen no more. Either way
/// one step is made. Anything else fails and changes nothing.
pub proof fn updates_are_acknowledged<C, J, U, E>(
    session: &mut SteppedSession<C>,
    received: Result<Option<ServerMessage<Connected, J, U>>, E>,
    result: Result<Option<Updates<U>>, ClientError<E>>,
)
    requires
        call_ensures(SteppedSession::<C>::advance::<J, U, E>, (session, received), result),
    ensures
        final(session).link() == old(session).link(),
        received matches Ok(Some(ServerMessage::Updates { server_step, updates })) ==> {
            &&& result matches Ok(Some(got)) && got.server_step == server_step && got.updates
                == updates
            &&& final(session).step() == old(session).step() + 1
            &&& final(session).next_update_step() == server_step + 1
        },
        received matches Ok(None) ==> {
            &&& result == Ok::<Option<Updates<U>>, ClientError<E>>(None)
            &&& final(session).step() == old(session).step() + 1
            &&& final(session).next_update_step() == old(session).next_update_step()
        },
        result is Err ==> {
            &&& final(session).step() == old(session).step()
            &&& final(session).next_update_step() == old(session).next_update_step()
        },
        received matches Ok(Some(ServerMessage::Connected(_))) ==> (result matches Err(err)
            && err is UnexpectedMessage),
        received matches Ok(Some(ServerMessage::PlayerJoined { .. })) ==> (result matches Err(err)
            && err is UnexpectedMessage),
        received matches Err(source) ==> (result matches Err(err) && (err
            matches ClientError::ChannelError { source: cause } && cause == source)),
{
}

/// A timed session makes one step whenever it is advanced, whatever came and however much time went
/// by. The time that is over stays less than a step.
pub proof fn timed_sessions_make_one_step<C, J, U, E>(
    session: &mut ClientSession<C>,
    delta_ns: u64,
    received: Result<Option<ServerMessage<TimedConnected, J, U>>, E>,
    result: Result<Option<Updates<U>>, ClientError<E>>,
)
    requires
        old(session).step_delta_ns() > 0,
        call_ensures(ClientSession::<C>::advance::<J, U, E>, (session, delta_ns, received), result),
    ensures
        final(session).link() == old(session).link(),
        final(session).step() == old(session).step() + 1,
        final(session).step_delta_ns() == old(session).step_delta_ns(),
        final(session).step_ns() < old(session).step_delta_ns(),
        exists|whole: int|
            old(session).step_ns() + delta_ns == final(session).step_ns()
                + #[trigger] (whole * old(session).step_delta_ns()),
        received matches Ok(Some(ServerMessage::Updates { server_step, updates })) ==> (result
            matches Ok(Some(got)) && got.server_step == server_step && got.updates == updates),
        received matches Ok(None) ==> result == Ok::<Option<Updates<U>>, ClientError<E>>(None),
        received matches Ok(Some(ServerMessage::Connected(_))) ==> (result matches Err(err)
            && err is UnexpectedMessage),
        received matches Ok(Some(ServerMessage::PlayerJoined { .. })) ==> (result matches Err(err)
            && err is UnexpectedMessage),
        received matches Err(source) ==> (result matches Err(err) && (err
            matches ClientError::ChannelError { source: cause } && cause == source)),
{
    let t = old(session).step_ns() + delta_ns;
    let d = old(session).step_delta_ns() as int;
    vstd::arithmetic::div_mod::lemma_fundamental_div_mod(t, d);
    let whole = t / d;
    assert(whole * d == d * whole) by (nonlinear_arith);
    assert(t == final(session).step_ns() + whole * old(session).step_delta_ns());
}

/// All inputs are sent, in their order, each with its player, at the client's step. A session that
/// acknowledges tells what it has seen.
pub proof fn inputs_are_sent_as_they_are<C, D, P, I>(
    session: SteppedSession<C>,
    inputs: Vec<(PlayerId, I)>,
    message: ClientMessage<InputStep, P, I>,
    timed: ClientSession<D>,
    commands: Vec<(PlayerId, I)>,
    sent: ClientMessage<u64, P, I>,
)
    requires
        call_ensures(SteppedSession::<C>::send_inputs::<P, I>, (&session, inputs), message),
        call_ensures(ClientSession::<D>::send_inputs::<P, I>, (&timed, commands), sent),
    ensures
        message matches ClientMessage::Inputs { at, inputs: out } && {
            &&& at.step == session.step()
            &&& at.next_update_step == session.next_update_step()
            &&& out@.len() == inputs@.len()
            &&& forall|k: int|
                0 <= k < inputs@.len() ==> (#[trigger] out@[k]).0 == Some(inputs@[k].0)
                    && out@[k].1 == inputs@[k].1
        },
        sent matches ClientMessage::Inputs { at, inputs: out } && {
            &&& at == timed.step()
            &&& out@.len() == commands@.len()
            &&& forall|k: int|
                0 <= k < commands@.len() ==> (#[trigger] out@[k]).0 == Some(commands@[k].0)
                    && out@[k].1 == commands@[k].1
        },
{
}

/// A session is asked for with a word that is always the same.
pub proof fn sessions_are_asked_for<C, D, A, P, I>(
    hello: ClientMessage<A, P, I>,
    timed: ClientMessage<A, P, I>,
)
    requires
        call_ensures(SteppedSession::<C>::hello::<A, P, I>, (), hello),
        call_ensures(ClientSession::<D>::hello::<A, P, I>, (), timed),
    ensures
        hello matches ClientMessage::Connect { token } && token@ == seq!['l', 'l', 'o', 't', 'h'],
        timed matches ClientMessage::Connect { token } && token@ == seq![
            'a',
            's',
            't',
            'r',
            'a',
            'l',
        ],
{
    reveal_strlit("lloth");
    reveal_strlit("astral");
    assert("lloth"@ =~= seq!['l', 'l', 'o', 't', 'h']);
    assert("astral"@ =~= seq!['a', 's', 't', 'r', 'a', 'l']);
}

/// A session tells the step that it is at. To use its channel changes nothing else of it.
pub proof fn client_sessions_tell_what_they_are<C, D>(
    session: SteppedSession<C>,
    step: u64,
    timed: ClientSession<D>,
    at: u64,
    one: &mut SteppedSession<C>,
    channel: &mut C,
    other: &mut ClientSession<D>,
    line: &mut D,
)
    requires
        call_ensures(SteppedSession::<C>::current_step, (&session,), step),
        call_ensures(ClientSession::<D>::current_step, (&timed,), at),
        call_ensures(SteppedSession::<C>::channel, (one,), channel),
        call_ensures(ClientSession::<D>::channel, (other,), line),
    ensures
        step == session.step(),
        at == timed.step(),
        *old(channel) == old(one).link(),
        *final(channel) == final(one).link(),
        final(one).step() == old(one).step(),
        final(one).next_update_step() == old(one).next_update_step(),
        *old(line) == old(other).link(),
        *final(line) == final(other).link(),
        final(other).step() == old(other).step(),
        final(other).step_ns() == old(other).step_ns(),
        final(other).step_delta_ns() == old(other).step_delta_ns(),
{
}

} // verus!
