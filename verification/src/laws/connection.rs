//! Laws of a connection to one peer.
use crate::connection::{
    after, answers, phase_after, task_of, Connection, End, Phase, Report, Signal, State, Task,
};
use vstd::prelude::*;

verus! {

/// A connection starts with the task to connect, with nothing read, and keeps
/// the key and the torrent that it was given.
pub proof fn law_connection_starts(key: u64, info_hash: [u8; 20], c: Connection)
    requires
        call_ensures(Connection::new, (key, info_hash), c),
    ensures
        c@.key == key,
        c@.info_hash == info_hash@,
        c@.buffer.len() == 0,
        c@.phase == Phase::Connecting,
        task_of(c@) == Task::Connect,
{
}

/// What each signal leads to, as the task that is to be done next. A read that
/// brought anything, of any length, is decoded; the connection goes on with a
/// peer that shows the same torrent, and with an engine that takes messages.
pub proof fn law_step_goes_on(c: &mut Connection, signal: Signal, task: Task)
    requires
        call_ensures(Connection::step, (c, signal), task),
    ensures
        signal is Connected ==> task == Task::SendHandshake,
        signal is HandshakeSent ==> task == Task::ReadHandshake,
        signal matches Signal::HandshakeRead(Some(h)) ==> h@ == old(c)@.info_hash ==> task
            == Task::Introduce(old(c)@.key),
        signal is Introduced ==> task == Task::Read,
        signal matches Signal::Received(bytes) ==> bytes@.len() > 0 ==> task == Task::Decode,
        signal is Incomplete ==> task == Task::Read,
        signal is Frame ==> task == Task::Forward(old(c)@.key),
        signal matches Signal::Forwarded(true) ==> task == Task::Decode,
{
}

/// A connection ends for a reason exactly if the signal is that reason.
pub proof fn law_step_ends_for_its_reason(
    c: &mut Connection,
    signal: Signal,
    task: Task,
)
    requires
        call_ensures(Connection::step, (c, signal), task),
    ensures
        task == Task::Stop(End::SocketFailed) <==> signal is SocketFailed,
        task == Task::Stop(End::ConnectTimeout) <==> signal is ConnectTimedOut,
        task == Task::Stop(End::BadFrame) <==> signal is BadFrame,
        task == Task::Stop(End::BadHandshake) <==> (signal is HandshakeRead
            && signal->HandshakeRead_0 is None),
        task == Task::Stop(End::WrongTorrent) <==> (signal is HandshakeRead
            && signal->HandshakeRead_0 is Some && signal->HandshakeRead_0->0@
            != old(c)@.info_hash),
        task == Task::Stop(End::PeerClosed) <==> (signal is Received && signal->Received_0@.len()
            == 0),
        task == Task::Stop(End::EngineGone) <==> (signal is Forwarded && !signal->Forwarded_0),
{
}

/// What a step does to the bytes: those that were read are added at the back,
/// those of a frame go from the front, and no other signal touches them. The key
/// and the torrent stay. The next task is the one that the connection itself
/// would name.
pub proof fn law_step_keeps_bytes(c: &mut Connection, signal: Signal, task: Task)
    requires
        call_ensures(Connection::step, (c, signal), task),
    ensures
        final(c)@.key == old(c)@.key,
        final(c)@.info_hash == old(c)@.info_hash,
        signal matches Signal::Received(bytes) ==> final(c)@.buffer == old(c)@.buffer + bytes@,
        signal matches Signal::Frame(n) ==> n <= old(c)@.buffer.len() ==> final(c)@.buffer
            == old(c)@.buffer.subrange(n as int, old(c)@.buffer.len() as int),
        !(signal is Received) && !(signal is Frame) ==> final(c)@.buffer == old(c)@.buffer,
        task_of(final(c)@) == task,
{
    if let Signal::Frame(n) = signal {
        if n <= old(c)@.buffer.len() {
            assert(final(c)@.buffer =~= old(c)@.buffer.subrange(
                n as int,
                old(c)@.buffer.len() as int,
            ));
        }
    }
}

/// Every way in which a task can come out is taken: a read of any length, a
/// handshake with any info-hash, a frame that lies within the bytes.
pub proof fn law_outcomes_are_taken(c: &mut Connection, signal: Signal)
    requires
        match task_of(old(c)@) {
            Task::Connect => signal is Connected || signal is ConnectTimedOut
                || signal is SocketFailed,
            Task::SendHandshake => signal is HandshakeSent || signal is SocketFailed,
            Task::ReadHandshake => signal is HandshakeRead || signal is SocketFailed,
            Task::Introduce(_) => signal is Introduced,
            Task::Read => signal is Received || signal is SocketFailed,
            Task::Decode => signal is Incomplete || signal is BadFrame || (signal is Frame
                && signal->Frame_0 <= old(c)@.buffer.len()),
            Task::Forward(_) => signal is Forwarded,
            Task::Stop(_) => false,
        },
    ensures
        call_requires(Connection::step, (c, signal)),
{
    assert(answers(old(c)@, signal@));
}

/// The task that a connection names is that of its state, and the bytes that it
/// shows are those that it keeps.
pub proof fn law_connection_is_shown(c: &Connection, task: Task, bytes: &[u8])
    requires
        call_ensures(Connection::task, (c,), task),
        call_ensures(Connection::buffered, (c,), bytes),
    ensures
        task == task_of(c@),
        bytes@ == c@.buffer,
{
}

/// Each end is reached by the report that is its reason and by no other, and a
/// report of a read that brought anything leads to decoding.
pub proof fn lemma_ends_have_their_reason(s: State, r: Report)
    requires
        answers(s, r),
    ensures
        r matches Report::Received(bytes) ==> bytes.len() > 0 ==> phase_after(s, r) is Decoding,
        after(s, r).phase matches Phase::Ended(end) ==> match end {
            End::PeerClosed => r matches Report::Received(bytes) && bytes.len() == 0,
            End::EngineGone => r == Report::Forwarded(false),
            End::ConnectTimeout => r is ConnectTimedOut,
            End::SocketFailed => r is SocketFailed,
            End::BadHandshake => r matches Report::HandshakeRead(None),
            End::WrongTorrent => r matches Report::HandshakeRead(Some(h)) && h != s.info_hash,
            End::BadFrame => r is BadFrame,
        },
{
}

/// A connection failed exactly if something is said of it; it did not if the
/// peer closed it or nobody takes its messages. The engine is told of failures,
/// and what is still to be sent is given up at once otherwise.
pub proof fn law_ends_are_reported(
    end: End,
    gone: bool,
    stops: bool,
    cause: &str,
    text: Option<String>,
)
    requires
        call_ensures(End::reports_gone, (&end,), gone),
        call_ensures(End::stops_writer, (&end,), stops),
        call_ensures(End::message, (&end, cause), text),
    ensures
        gone <==> end != End::PeerClosed && end != End::EngineGone,
        stops <==> !gone,
        text is Some <==> gone,
{
}

/// What is said of a failure ends with what the socket or the codec said, where
/// the failure is theirs, and does not depend on it elsewhere.
pub proof fn law_failures_quote_their_cause(end: End, cause: &str, text: Option<String>)
    requires
        call_ensures(End::message, (&end, cause), text),
    ensures
        end == End::SocketFailed ==> (text matches Some(t) && t@ == cause@),
        end == End::BadHandshake ==> (text matches Some(t) && t@ == "bad handshake: "@ + cause@),
        end == End::BadFrame ==> (text matches Some(t) && t@ == "frame: "@ + cause@),
        end == End::ConnectTimeout ==> (text matches Some(t) && t@ == "connect timeout"@),
        end == End::WrongTorrent ==> (text matches Some(t) && t@
            == "peer offered a different info-hash"@),
{
}

/// Every connection can be made, and every end reported.
pub proof fn law_connections_are_taken(
    key: u64,
    info_hash: [u8; 20],
    c: &Connection,
    end: End,
    cause: &str,
)
    ensures
        call_requires(Connection::new, (key, info_hash)),
        call_requires(Connection::task, (c,)),
        call_requires(Connection::buffered, (c,)),
        call_requires(End::reports_gone, (&end,)),
        call_requires(End::stops_writer, (&end,)),
        call_requires(End::message, (&end, cause)),
{
}

} // verus!
