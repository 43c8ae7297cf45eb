//! A connection to one peer: what is to be done next, given what the socket,
//! the codec and the engine reported.
//!
//! A connection greets the peer, checks that both mean the same torrent, and
//! from then on reads: bytes are collected, and each frame that is complete is
//! taken off the front and handed on.
use vstd::prelude::*;

verus! {

/// Why a connection ended.
#[derive(Debug, Clone, Copy, PartialEq, Eq)]
pub enum End {
    /// The peer closed it.
    PeerClosed,
    /// Nobody takes the messages any more.
    EngineGone,
    /// It could not be made in time.
    ConnectTimeout,
    /// The socket failed.
    SocketFailed,
    /// What the peer sent is no handshake.
    BadHandshake,
    /// The peer offered a different info-hash.
    WrongTorrent,
    /// What the peer sent is no message.
    BadFrame,
}

impl End {
    /// Whether the connection failed, so that the engine has to be told.
    pub open spec fn failed(self) -> bool {
        !(self is PeerClosed || self is EngineGone)
    }

    /// Whether the engine is told that the peer is gone: on failure, and only
    /// then.
    pub fn reports_gone(&self) -> (yes: bool)
        ensures
            yes == self.failed(),
    {
        match self {
            End::PeerClosed => false,
            End::EngineGone => false,
            _ => true,
        }
    }

    /// What is said of a failed connection; `cause` is what the socket or the
    /// codec said, where the failure is theirs. Nothing is said of a connection
    /// that did not fail.
    pub open spec fn text(self, cause: Seq<char>) -> Option<Seq<char>> {
        match self {
            End::PeerClosed => None,
            End::EngineGone => None,
            End::ConnectTimeout => Some("connect timeout"@),
            End::SocketFailed => Some(cause),
            End::BadHandshake => Some("bad handshake: "@ + cause),
            End::WrongTorrent => Some("peer offered a different info-hash"@),
            End::BadFrame => Some("frame: "@ + cause),
        }
    }

    /// The failure in words.
    pub fn message(&self, cause: &str) -> (text: Option<String>)
        ensures
            text is Some <==> self.failed(),
            text is Some <==> self.text(cause@) is Some,
            text matches Some(t) ==> self.text(cause@) == Some(t@),
    {
        match self {
            End::PeerClosed => None,
            End::EngineGone => None,
            End::ConnectTimeout => Some("connect timeout".to_owned()),
            End::SocketFailed => Some(cause.to_owned()),
            End::BadHandshake => {
                let mut text = "bad handshake: ".to_owned();
                text.append(cause);
                Some(text)
            },
            End::WrongTorrent => Some("peer offered a different info-hash".to_owned()),
            End::BadFrame => {
                let mut text = "frame: ".to_owned();
                text.append(cause);
                Some(text)
            },
        }
    }

    /// Whether what is still to be sent is given up at once: unless the
    /// connection failed.
    pub fn stops_writer(&self) -> (yes: bool)
        ensures
            yes == !self.failed(),
    {
        !self.reports_gone()
    }
}

/// What a connection waits for.
#[derive(Debug, Clone, Copy, PartialEq, Eq)]
pub enum Phase {
    Connecting,
    Greeting,
    AwaitingHandshake,
    Introducing,
    Reading,
    Decoding,
    Forwarding,
    Ended(End),
}

/// What is to be done next.
#[derive(Debug, Clone, Copy, PartialEq, Eq)]
pub enum Task {
    /// Connect to the peer.
    Connect,
    /// Send the handshake.
    SendHandshake,
    /// Read the peer's handshake.
    ReadHandshake,
    /// Tell the engine that the peer with this key is ready, and begin to send.
    Introduce(u64),
    /// Read more bytes.
    Read,
    /// Look for a complete frame at the front of the bytes.
    Decode,
    /// Hand the message of the frame to the engine, as of the peer with this key.
    Forward(u64),
    /// Stop.
    Stop(End),
}

/// What came of the task.
#[derive(Debug, PartialEq, Eq)]
pub enum Signal {
    ConnectTimedOut,
    SocketFailed,
    Connected,
    HandshakeSent,
    /// The info-hash of the peer's handshake, or none if it is no handshake.
    HandshakeRead(Option<[u8; 20]>),
    Introduced,
    /// What was read; nothing at the end of the stream.
    Received(Vec<u8>),
    /// The front of the bytes is no complete frame yet.
    Incomplete,
    /// The front of the bytes is a frame of this many bytes.
    Frame(usize),
    /// The front of the bytes can be no frame.
    BadFrame,
    /// Whether the engine took the message.
    Forwarded(bool),
}

/// What came of a task, apart from its representation.
pub enum Report {
    ConnectTimedOut,
    SocketFailed,
    Connected,
    HandshakeSent,
    HandshakeRead(Option<Seq<u8>>),
    Introduced,
    Received(Seq<u8>),
    Incomplete,
    Frame(nat),
    BadFrame,
    Forwarded(bool),
}

impl Signal {
    /// The report that the signal makes.
    pub open spec fn view(self) -> Report {
        match self {
            Signal::ConnectTimedOut => Report::ConnectTimedOut,
            Signal::SocketFailed => Report::SocketFailed,
            Signal::Connected => Report::Connected,
            Signal::HandshakeSent => Report::HandshakeSent,
            Signal::HandshakeRead(Some(h)) => Report::HandshakeRead(Some(h@)),
            Signal::HandshakeRead(None) => Report::HandshakeRead(None),
            Signal::Introduced => Report::Introduced,
            Signal::Received(bytes) => Report::Received(bytes@),
            Signal::Incomplete => Report::Incomplete,
            Signal::Frame(n) => Report::Frame(n as nat),
            Signal::BadFrame => Report::BadFrame,
            Signal::Forwarded(taken) => Report::Forwarded(taken),
        }
    }
}

/// A connection, apart from its representation: the key under which the engine
/// knows the peer, the torrent it is about, what it waits for, and the bytes
/// that have been read and not taken off.
pub struct State {
    pub key: u64,
    pub info_hash: Seq<u8>,
    pub phase: Phase,
    pub buffer: Seq<u8>,
}

/// Whether a report answers what a connection waits for. A frame lies within
/// the bytes that it was found in.
pub open spec fn answers(s: State, r: Report) -> bool {
    match (s.phase, r) {
        (Phase::Connecting, Report::ConnectTimedOut) => true,
        (Phase::Connecting, Report::SocketFailed) => true,
        (Phase::Connecting, Report::Connected) => true,
        (Phase::Greeting, Report::SocketFailed) => true,
        (Phase::Greeting, Report::HandshakeSent) => true,
        (Phase::AwaitingHandshake, Report::SocketFailed) => true,
        (Phase::AwaitingHandshake, Report::HandshakeRead(_)) => true,
        (Phase::Introducing, Report::Introduced) => true,
        (Phase::Reading, Report::SocketFailed) => true,
        (Phase::Reading, Report::Received(_)) => true,
        (Phase::Decoding, Report::Incomplete) => true,
        (Phase::Decoding, Report::Frame(n)) => n <= s.buffer.len(),
        (Phase::Decoding, Report::BadFrame) => true,
        (Phase::Forwarding, Report::Forwarded(_)) => true,
        _ => false,
    }
}

/// What a connection waits for after a report.
pub open spec fn phase_after(s: State, r: Report) -> Phase {
    match r {
        Report::ConnectTimedOut => Phase::Ended(End::ConnectTimeout),
        Report::SocketFailed => Phase::Ended(End::SocketFailed),
        Report::Connected => Phase::Greeting,
        Report::HandshakeSent => Phase::AwaitingHandshake,
        Report::HandshakeRead(None) => Phase::Ended(End::BadHandshake),
        Report::HandshakeRead(Some(h)) => if h == s.info_hash {
            Phase::Introducing
        } else {
            Phase::Ended(End::WrongTorrent)
        },
        Report::Introduced => Phase::Reading,
        Report::Received(bytes) => if bytes.len() == 0 {
            Phase::Ended(End::PeerClosed)
        } else {
            Phase::Decoding
        },
        Report::Incomplete => Phase::Reading,
        Report::Frame(_) => Phase::Forwarding,
        Report::BadFrame => Phase::Ended(End::BadFrame),
        Report::Forwarded(taken) => if taken {
            Phase::Decoding
        } else {
            Phase::Ended(End::EngineGone)
        },
    }
}

/// The bytes that are kept after a report: those read are added at the back, a
/// frame is taken off the front.
pub open spec fn buffer_after(s: State, r: Report) -> Seq<u8> {
    match r {
        Report::Received(bytes) => s.buffer + bytes,
        Report::Frame(n) => s.buffer.skip(n as int),
        _ => s.buffer,
    }
}

/// A connection after a report.
pub open spec fn after(s: State, r: Report) -> State {
    State {
        key: s.key,
        info_hash: s.info_hash,
        phase: phase_after(s, r),
        buffer: buffer_after(s, r),
    }
}

/// What is to be done next about a connection.
pub open spec fn task_of(s: State) -> Task {
    match s.phase {
        Phase::Connecting => Task::Connect,
        Phase::Greeting => Task::SendHandshake,
        Phase::AwaitingHandshake => Task::ReadHandshake,
        Phase::Introducing => Task::Introduce(s.key),
        Phase::Reading => Task::Read,
        Phase::Decoding => Task::Decode,
        Phase::Forwarding => Task::Forward(s.key),
        Phase::Ended(end) => Task::Stop(end),
    }
}

/// A connection at its start.
pub open spec fn initial(key: u64, info_hash: Seq<u8>) -> State {
    State { key, info_hash, phase: Phase::Connecting, buffer: seq![] }
}

/// A connection to one peer.
#[derive(Debug)]
pub struct Connection {
    key: u64,
    info_hash: [u8; 20],
    phase: Phase,
    buffer: Vec<u8>,
}

/// Whether two info-hashes are the same.
fn same_hash(a: &[u8; 20], b: &[u8; 20]) -> (same: bool)
    ensures
        same == (a@ == b@),
{
    let mut i: usize = 0;
    while i < 20
        invariant
            i <= 20,
            forall|j: int| 0 <= j < i ==> a@[j] == b@[j],
        decreases 20 - i,
    {
        if a[i] != b[i] {
            return false;
        }
        i = i + 1;
    }
    assert(a@ =~= b@);
    true
}

impl Connection {
    /// The connection, apart from its representation.
    pub closed spec fn view(self) -> State {
        State {
            key: self.key,
            info_hash: self.info_hash@,
            phase: self.phase,
            buffer: self.buffer@,
        }
    }

    /// A connection that is still to be made, to the peer that the engine knows
    /// under the key, about the torrent with the given info-hash.
    pub fn new(key: u64, info_hash: [u8; 20]) -> (c: Connection)
        ensures
            c@ == initial(key, info_hash@),
    {
        let c = Connection { key, info_hash, phase: Phase::Connecting, buffer: Vec::new() };
        assert(c.buffer@ =~= seq![]);
        c
    }

    /// What is to be done next.
    pub fn task(&self) -> (task: Task)
        ensures
            task == task_of(self@),
    {
        match self.phase {
            Phase::Connecting => Task::Connect,
            Phase::Greeting => Task::SendHandshake,
            Phase::AwaitingHandshake => Task::ReadHandshake,
            Phase::Introducing => Task::Introduce(self.key),
            Phase::Reading => Task::Read,
            Phase::Decoding => Task::Decode,
            Phase::Forwarding => Task::Forward(self.key),
            Phase::Ended(end) => Task::Stop(end),
        }
    }

    /// The bytes that have been read and not taken off.
    pub fn buffered(&self) -> (bytes: &[u8])
        ensures
            bytes@ == self@.buffer,
    {
        self.buffer.as_slice()
    }

    /// Goes on with what came of the task.
    pub fn step(&mut self, signal: Signal) -> (task: Task)
        requires
            answers(old(self)@, signal@),
        ensures
            final(self)@ == after(old(self)@, signal@),
            task == task_of(final(self)@),
    {
        match signal {
            Signal::ConnectTimedOut => {
                self.phase = Phase::Ended(End::ConnectTimeout);
            },
            Signal::SocketFailed => {
                self.phase = Phase::Ended(End::SocketFailed);
            },
            Signal::Connected => {
                self.phase = Phase::Greeting;
            },
            Signal::HandshakeSent => {
                self.phase = Phase::AwaitingHandshake;
            },
            Signal::HandshakeRead(None) => {
                self.phase = Phase::Ended(End::BadHandshake);
            },
            Signal::HandshakeRead(Some(h)) => {
                if same_hash(&h, &self.info_hash) {
                    self.phase = Phase::Introducing;
                } else {
                    self.phase = Phase::Ended(End::WrongTorrent);
                }
            },
            Signal::Introduced => {
                self.phase = Phase::Reading;
            },
            Signal::Received(bytes) => {
                if bytes.len() == 0 {
                    self.phase = Phase::Ended(End::PeerClosed);
                    assert(self.buffer@ =~= self.buffer@ + bytes@);
                } else {
                    let ghost kept = self.buffer@;
                    self.buffer.extend_from_slice(bytes.as_slice());
                    assert(self.buffer@ =~= kept + bytes@);
                    self.phase = Phase::Decoding;
                }
            },
            Signal::Incomplete => {
                self.phase = Phase::Reading;
            },
            Signal::Frame(n) => {
                let ghost kept = self.buffer@;
                let rest = self.buffer.split_off(n);
                self.buffer = rest;
                assert(self.buffer@ =~= kept.skip(n as int));
                self.phase = Phase::Forwarding;
            },
            Signal::BadFrame => {
                self.phase = Phase::Ended(End::BadFrame);
            },
            Signal::Forwarded(taken) => {
                if taken {
                    self.phase = Phase::Decoding;
                } else {
                    self.phase = Phase::Ended(End::EngineGone);
                }
            },
        }
        self.task()
    }
}

/// A connection after a sequence of reports.
pub open spec fn run(s: State, reports: Seq<Report>) -> State
    decreases reports.len(),
{
    if reports.len() == 0 {
        s
    } else {
        after(run(s, reports.drop_last()), reports.last())
    }
}

/// Whether each report answers what the connection then waited for.
pub open spec fn answered(s: State, reports: Seq<Report>) -> bool
    decreases reports.len(),
{
    reports.len() > 0 ==> answered(s, reports.drop_last()) && answers(
        run(s, reports.drop_last()),
        reports.last(),
    )
}

/// The bytes that were read, in order.
pub open spec fn received(reports: Seq<Report>) -> Seq<u8>
    decreases reports.len(),
{
    if reports.len() == 0 {
        seq![]
    } else {
        let before = received(reports.drop_last());
        match reports.last() {
            Report::Received(bytes) => before + bytes,
            _ => before,
        }
    }
}

/// The frames that were taken off, in order.
pub open spec fn taken(s: State, reports: Seq<Report>) -> Seq<Seq<u8>>
    decreases reports.len(),
{
    if reports.len() == 0 {
        seq![]
    } else {
        let before = taken(s, reports.drop_last());
        match reports.last() {
            Report::Frame(n) => before.push(run(s, reports.drop_last()).buffer.take(n as int)),
            _ => before,
        }
    }
}

/// Frames one after the other.
pub open spec fn joined(frames: Seq<Seq<u8>>) -> Seq<u8>
    decreases frames.len(),
{
    if frames.len() == 0 {
        seq![]
    } else {
        joined(frames.drop_last()) + frames.last()
    }
}

/// No byte is lost, repeated or moved: what was read is the frames that were
/// taken off and the bytes that are kept.
pub proof fn lemma_bytes_are_conserved(key: u64, info_hash: Seq<u8>, reports: Seq<Report>)
    requires
        answered(initial(key, info_hash), reports),
    ensures
        received(reports) == joined(taken(initial(key, info_hash), reports)) + run(
            initial(key, info_hash),
            reports,
        ).buffer,
    decreases reports.len(),
{
    let s = initial(key, info_hash);
    if reports.len() > 0 {
        let before = reports.drop_last();
        lemma_bytes_are_conserved(key, info_hash, before);
        if let Report::Frame(n) = reports.last() {
            let frame = run(s, before).buffer.take(n as int);
            assert(taken(s, reports).drop_last() =~= taken(s, before));
            assert(joined(taken(s, reports)) == joined(taken(s, before)) + frame);
        }
    }
    assert(received(reports) =~= joined(taken(s, reports)) + run(s, reports).buffer);
}

/// Whether a connection is past the handshake.
pub open spec fn exchanging(phase: Phase) -> bool {
    phase is Introducing || phase is Reading || phase is Decoding || phase is Forwarding
}

/// Nothing is exchanged with a peer that has not shown, in its handshake, that
/// it means the same torrent.
pub proof fn lemma_exchange_needs_the_same_torrent(
    key: u64,
    info_hash: Seq<u8>,
    reports: Seq<Report>,
)
    requires
        answered(initial(key, info_hash), reports),
        exchanging(run(initial(key, info_hash), reports).phase),
    ensures
        reports.contains(Report::HandshakeRead(Some(info_hash))),
    decreases reports.len(),
{
    let s = initial(key, info_hash);
    let before = reports.drop_last();
    let wanted = Report::HandshakeRead(Some(info_hash));
    if reports.len() > 0 {
        lemma_identity_is_kept(s, before);
        if exchanging(run(s, before).phase) {
            lemma_exchange_needs_the_same_torrent(key, info_hash, before);
            let i = choose|i: int| 0 <= i < before.len() && before[i] == wanted;
            assert(reports[i] == wanted);
        } else {
            assert(reports[reports.len() - 1] == wanted);
        }
    }
}

/// A connection is about one peer and one torrent.
proof fn lemma_identity_is_kept(s: State, reports: Seq<Report>)
    ensures
        run(s, reports).key == s.key,
        run(s, reports).info_hash == s.info_hash,
    decreases reports.len(),
{
    if reports.len() > 0 {
        lemma_identity_is_kept(s, reports.drop_last());
    }
}

/// A connection that has ended stays so: no report is an answer any more.
pub proof fn lemma_the_end_is_final(s: State, r: Report)
    requires
        s.phase is Ended,
    ensures
        !answers(s, r),
{
}

/// Whether a connection has not introduced the peer yet, and has not ended.
pub open spec fn before_introduction(phase: Phase) -> bool {
    phase is Connecting || phase is Greeting || phase is AwaitingHandshake || phase is Introducing
}

/// A peer is introduced at most once, and before anything is read from it,
/// taken off or handed on.
pub proof fn lemma_introduction_comes_once_and_first(
    key: u64,
    info_hash: Seq<u8>,
    reports: Seq<Report>,
)
    requires
        answered(initial(key, info_hash), reports),
    ensures
        forall|i: int, j: int|
            0 <= i < reports.len() && 0 <= j < reports.len() && #[trigger] reports[i] is Introduced
                && #[trigger] reports[j] is Introduced ==> i == j,
        forall|j: int|
            0 <= j < reports.len() && (#[trigger] reports[j] is Received || reports[j] is Frame
                || reports[j] is Forwarded) ==> exists|i: int|
                0 <= i < j && #[trigger] reports[i] is Introduced,
{
    lemma_introduction(key, info_hash, reports);
}

/// The same, with what each phase tells of the introduction.
proof fn lemma_introduction(key: u64, info_hash: Seq<u8>, reports: Seq<Report>)
    requires
        answered(initial(key, info_hash), reports),
    ensures
        before_introduction(run(initial(key, info_hash), reports).phase) ==> forall|i: int|
            0 <= i < reports.len() ==> !(#[trigger] reports[i] is Introduced),
        run(initial(key, info_hash), reports).phase is Reading || run(
            initial(key, info_hash),
            reports,
        ).phase is Decoding || run(initial(key, info_hash), reports).phase is Forwarding ==> exists|
            i: int,
        |
            0 <= i < reports.len() && #[trigger] reports[i] is Introduced,
        forall|i: int, j: int|
            0 <= i < reports.len() && 0 <= j < reports.len() && #[trigger] reports[i] is Introduced
                && #[trigger] reports[j] is Introduced ==> i == j,
        forall|j: int|
            0 <= j < reports.len() && (#[trigger] reports[j] is Received || reports[j] is Frame
                || reports[j] is Forwarded) ==> exists|i: int|
                0 <= i < j && #[trigger] reports[i] is Introduced,
    decreases reports.len(),
{
    let s = initial(key, info_hash);
    if reports.len() > 0 {
        let before = reports.drop_last();
        let last = reports.len() - 1;
        let phase = run(s, before).phase;
        lemma_introduction(key, info_hash, before);
        assert(forall|i: int| 0 <= i < last ==> before[i] == #[trigger] reports[i]);
        assert(reports[last] == reports.last());
        if phase is Reading || phase is Decoding || phase is Forwarding {
            let i = choose|i: int| 0 <= i < before.len() && #[trigger] before[i] is Introduced;
            assert(reports[i] is Introduced);
        }
        assert forall|j: int|
            0 <= j < reports.len() && (#[trigger] reports[j] is Received || reports[j] is Frame
                || reports[j] is Forwarded) implies exists|i: int|
            0 <= i < j && #[trigger] reports[i] is Introduced by {
            if j < last {
                assert(before[j] == reports[j]);
                let i = choose|i: int| 0 <= i < j && #[trigger] before[i] is Introduced;
                assert(reports[i] is Introduced);
            }
        }
    }
}

/// What the engine is told of a peer.
pub enum Notice {
    Ready(u64),
    Message(u64, Seq<u8>),
}

/// What the engine was told, in order: that the peer is ready, when it was
/// introduced, and each message that it took. A message is given by its frame.
pub open spec fn notices(s: State, reports: Seq<Report>) -> Seq<Notice>
    decreases reports.len(),
{
    if reports.len() == 0 {
        seq![]
    } else {
        let earlier = reports.drop_last();
        let key = run(s, earlier).key;
        let before = notices(s, earlier);
        match reports.last() {
            Report::Introduced => before.push(Notice::Ready(key)),
            Report::Forwarded(true) => before.push(Notice::Message(key, taken(s, earlier).last())),
            _ => before,
        }
    }
}

/// That a peer is ready, and then the messages of frames.
pub open spec fn ready_then(key: u64, frames: Seq<Seq<u8>>) -> Seq<Notice> {
    seq![Notice::Ready(key)] + Seq::new(frames.len(), |i: int| Notice::Message(key, frames[i]))
}

/// What the engine was told in each phase.
spec fn told_so_far(s: State, reports: Seq<Report>) -> bool {
    let told = notices(s, reports);
    let frames = taken(s, reports);
    match run(s, reports).phase {
        Phase::Reading | Phase::Decoding | Phase::Ended(End::PeerClosed) | Phase::Ended(
            End::BadFrame,
        ) => told == ready_then(s.key, frames),
        Phase::Forwarding | Phase::Ended(End::EngineGone) => frames.len() > 0 && told
            == ready_then(s.key, frames.drop_last()),
        Phase::Ended(_) => (told.len() == 0 && frames.len() == 0) || told == ready_then(
            s.key,
            frames,
        ),
        _ => told.len() == 0 && frames.len() == 0,
    }
}

/// The engine was told in each phase what belongs there.
proof fn lemma_told_so_far(key: u64, info_hash: Seq<u8>, reports: Seq<Report>)
    requires
        answered(initial(key, info_hash), reports),
    ensures
        told_so_far(initial(key, info_hash), reports),
    decreases reports.len(),
{
    let s = initial(key, info_hash);
    if reports.len() > 0 {
        let before = reports.drop_last();
        lemma_told_so_far(key, info_hash, before);
        lemma_identity_is_kept(s, before);
        let (told, frames) = (notices(s, reports), taken(s, reports));
        match reports.last() {
            Report::Introduced => {
                assert(told =~= ready_then(key, frames));
            },
            Report::Frame(_) => {
                assert(frames.drop_last() =~= taken(s, before));
            },
            Report::Forwarded(true) => {
                assert(told =~= ready_then(key, frames));
            },
            _ => {},
        }
    }
}

/// At every moment the engine was told nothing of a peer, or that it is ready,
/// once and first, and after that nothing but messages; all under the peer's
/// key, and nothing before the peer showed that it means the same torrent.
pub proof fn lemma_engine_hears_ready_then_messages(
    key: u64,
    info_hash: Seq<u8>,
    reports: Seq<Report>,
)
    requires
        answered(initial(key, info_hash), reports),
    ensures
        ({
            let told = notices(initial(key, info_hash), reports);
            told.len() > 0 ==> {
                &&& told[0] == Notice::Ready(key)
                &&& forall|i: int|
                    1 <= i < told.len() ==> #[trigger] told[i] == Notice::Message(
                        key,
                        taken(initial(key, info_hash), reports)[i - 1],
                    )
                &&& reports.contains(Report::HandshakeRead(Some(info_hash)))
            }
        }),
    decreases reports.len(),
{
    let s = initial(key, info_hash);
    lemma_told_so_far(key, info_hash, reports);
    if notices(s, reports).len() > 0 {
        let before = reports.drop_last();
        let wanted = Report::HandshakeRead(Some(info_hash));
        if exchanging(run(s, before).phase) {
            lemma_exchange_needs_the_same_torrent(key, info_hash, before);
        } else {
            lemma_engine_hears_ready_then_messages(key, info_hash, before);
        }
        let i = choose|i: int| 0 <= i < before.len() && before[i] == wanted;
        assert(reports[i] == wanted);
    }
}

/// What a codec says of the front of some bytes.
pub enum Verdict {
    /// It is no complete frame yet.
    Incomplete,
    /// It is a frame of this many bytes.
    Frame(nat),
    /// It can be no frame.
    Bad,
}

/// Whether more bytes at the back do not change what a codec has found at the
/// front. A frame lies within the bytes that it was found in.
pub open spec fn stable(codec: spec_fn(Seq<u8>) -> Verdict) -> bool {
    forall|b: Seq<u8>, more: Seq<u8>|
        match codec(b) {
            Verdict::Incomplete => true,
            Verdict::Frame(n) => n <= b.len() && #[trigger] codec(b + more) == Verdict::Frame(n),
            Verdict::Bad => codec(b + more) is Bad,
        }
}

/// Whether what was reported of the bytes is what a codec says of them.
pub open spec fn judged(
    codec: spec_fn(Seq<u8>) -> Verdict,
    s: State,
    reports: Seq<Report>,
) -> bool
    decreases reports.len(),
{
    reports.len() > 0 ==> {
        let buffer = run(s, reports.drop_last()).buffer;
        &&& judged(codec, s, reports.drop_last())
        &&& match reports.last() {
            Report::Incomplete => codec(buffer) is Incomplete,
            Report::Frame(n) => codec(buffer) == Verdict::Frame(n),
            Report::BadFrame => codec(buffer) is Bad,
            _ => true,
        }
    }
}

/// The complete frames at the front of a stream, in order.
pub open spec fn stream_frames(codec: spec_fn(Seq<u8>) -> Verdict, stream: Seq<u8>) -> Seq<Seq<u8>>
    decreases stream.len(),
{
    match codec(stream) {
        Verdict::Frame(n) if 0 < n <= stream.len() => seq![stream.take(n as int)] + stream_frames(
            codec,
            stream.skip(n as int),
        ),
        _ => seq![],
    }
}

/// What follows the complete frames at the front of a stream.
pub open spec fn stream_rest(codec: spec_fn(Seq<u8>) -> Verdict, stream: Seq<u8>) -> Seq<u8>
    decreases stream.len(),
{
    match codec(stream) {
        Verdict::Frame(n) if 0 < n <= stream.len() => stream_rest(codec, stream.skip(n as int)),
        _ => stream,
    }
}

/// Whether a connection has handed on what there was and is waiting for more,
/// or the peer closed it then.
pub open spec fn caught_up(phase: Phase) -> bool {
    phase is Reading || phase == Phase::Ended(End::PeerClosed)
}

/// Whether a connection can only go on finding the same frame of no bytes.
spec fn stuck(codec: spec_fn(Seq<u8>) -> Verdict, s: State) -> bool {
    &&& codec(s.buffer) == Verdict::Frame(0)
    &&& s.phase is Decoding || s.phase is Forwarding || s.phase == Phase::Ended(End::EngineGone)
}

/// Whether the frames that were taken off are those that the stream starts with,
/// and the bytes that are kept go on as the stream does, whatever follows.
spec fn in_step(codec: spec_fn(Seq<u8>) -> Verdict, s: State, reports: Seq<Report>) -> bool {
    forall|more: Seq<u8>|
        #![trigger stream_frames(codec, received(reports) + more)]
        #![trigger stream_rest(codec, received(reports) + more)]
        {
            let (stream, kept) = (received(reports) + more, run(s, reports).buffer + more);
            &&& stream_frames(codec, stream) == taken(s, reports) + stream_frames(codec, kept)
            &&& stream_rest(codec, stream) == stream_rest(codec, kept)
        }
}

/// Taking a frame off keeps in step.
proof fn lemma_frame_keeps_step(
    codec: spec_fn(Seq<u8>) -> Verdict,
    s: State,
    reports: Seq<Report>,
    n: nat,
)
    requires
        stable(codec),
        reports.len() > 0,
        reports.last() == Report::Frame(n),
        0 < n <= run(s, reports.drop_last()).buffer.len(),
        codec(run(s, reports.drop_last()).buffer) == Verdict::Frame(n),
        in_step(codec, s, reports.drop_last()),
    ensures
        in_step(codec, s, reports),
{
    let before = reports.drop_last();
    let b = run(s, before).buffer;
    assert forall|more: Seq<u8>|
        #![trigger stream_frames(codec, received(reports) + more)]
        #![trigger stream_rest(codec, received(reports) + more)]
        {
            let (stream, kept) = (received(reports) + more, run(s, reports).buffer + more);
            &&& stream_frames(codec, stream) == taken(s, reports) + stream_frames(codec, kept)
            &&& stream_rest(codec, stream) == stream_rest(codec, kept)
        } by {
        let kept = run(s, reports).buffer + more;
        assert(codec(b + more) == Verdict::Frame(n));
        assert((b + more).take(n as int) =~= b.take(n as int));
        assert((b + more).skip(n as int) =~= kept);
        let stream = received(before) + more;
        assert(stream_frames(codec, stream) == taken(s, before) + stream_frames(codec, b + more));
        assert(stream_frames(codec, stream) =~= taken(s, reports) + stream_frames(codec, kept));
    }
}

/// Reading keeps in step.
proof fn lemma_read_keeps_step(
    codec: spec_fn(Seq<u8>) -> Verdict,
    s: State,
    reports: Seq<Report>,
    bytes: Seq<u8>,
)
    requires
        reports.len() > 0,
        reports.last() == Report::Received(bytes),
        in_step(codec, s, reports.drop_last()),
    ensures
        in_step(codec, s, reports),
{
    let before = reports.drop_last();
    let b = run(s, before).buffer;
    assert forall|more: Seq<u8>|
        #![trigger stream_frames(codec, received(reports) + more)]
        #![trigger stream_rest(codec, received(reports) + more)]
        {
            let (stream, kept) = (received(reports) + more, run(s, reports).buffer + more);
            &&& stream_frames(codec, stream) == taken(s, reports) + stream_frames(codec, kept)
            &&& stream_rest(codec, stream) == stream_rest(codec, kept)
        } by {
        assert(received(reports) + more =~= received(before) + (bytes + more));
        assert(run(s, reports).buffer + more =~= b + (bytes + more));
        assert(stream_frames(codec, received(before) + (bytes + more)) == taken(s, before)
            + stream_frames(codec, b + (bytes + more)));
    }
}

/// A connection stays in step with the stream that it reads, unless the codec
/// finds a frame of no bytes, from which there is no way on.
proof fn lemma_in_step(
    codec: spec_fn(Seq<u8>) -> Verdict,
    key: u64,
    info_hash: Seq<u8>,
    reports: Seq<Report>,
)
    requires
        stable(codec),
        answered(initial(key, info_hash), reports),
        judged(codec, initial(key, info_hash), reports),
    ensures
        ({
            let s = initial(key, info_hash);
            let now = run(s, reports);
            &&& stuck(codec, now) || in_step(codec, s, reports)
            &&& before_introduction(now.phase) ==> received(reports).len() == 0
            &&& caught_up(now.phase) ==> received(reports).len() == 0 || codec(
                now.buffer,
            ) is Incomplete
            &&& now.phase == Phase::Ended(End::BadFrame) ==> codec(now.buffer) is Bad
                && received(reports).len() > 0
            &&& now.phase is Decoding || now.phase is Forwarding ==> received(reports).len() > 0
        }),
    decreases reports.len(),
{
    let s = initial(key, info_hash);
    if reports.len() == 0 {
        assert forall|more: Seq<u8>|
            #![trigger stream_frames(codec, received(reports) + more)]
            #![trigger stream_rest(codec, received(reports) + more)]
            {
                let (stream, kept) = (received(reports) + more, run(s, reports).buffer + more);
                &&& stream_frames(codec, stream) == taken(s, reports) + stream_frames(codec, kept)
                &&& stream_rest(codec, stream) == stream_rest(codec, kept)
            } by {
            let kept = run(s, reports).buffer + more;
            assert(taken(s, reports) + stream_frames(codec, kept) =~= stream_frames(codec, kept));
        }
    } else {
        let before = reports.drop_last();
        let was = run(s, before);
        lemma_in_step(codec, key, info_hash, before);
        match reports.last() {
            Report::Received(bytes) => {
                lemma_read_keeps_step(codec, s, reports, bytes);
                if bytes.len() == 0 {
                    assert(received(reports) =~= received(before));
                    assert(run(s, reports).buffer =~= was.buffer);
                }
            },
            Report::Frame(n) => {
                if n > 0 {
                    lemma_frame_keeps_step(codec, s, reports, n);
                } else {
                    assert(run(s, reports).buffer =~= was.buffer);
                }
            },
            _ => {
                assert(received(reports) == received(before));
                assert(taken(s, reports) == taken(s, before));
                assert(run(s, reports).buffer == was.buffer);
                if in_step(codec, s, before) {
                    assert(in_step(codec, s, reports));
                }
            },
        }
    }
}

/// A connection that has caught up has handed on the complete frames of the
/// stream, each once and in order, and keeps what follows them.
pub proof fn lemma_frames_are_those_of_the_stream(
    codec: spec_fn(Seq<u8>) -> Verdict,
    key: u64,
    info_hash: Seq<u8>,
    reports: Seq<Report>,
)
    requires
        stable(codec),
        answered(initial(key, info_hash), reports),
        judged(codec, initial(key, info_hash), reports),
        caught_up(run(initial(key, info_hash), reports).phase),
    ensures
        taken(initial(key, info_hash), reports) == stream_frames(codec, received(reports)),
        notices(initial(key, info_hash), reports) == ready_then(
            key,
            stream_frames(codec, received(reports)),
        ),
        run(initial(key, info_hash), reports).buffer == stream_rest(codec, received(reports)),
{
    let s = initial(key, info_hash);
    let b = run(s, reports).buffer;
    let stream = received(reports);
    lemma_in_step(codec, key, info_hash, reports);
    lemma_told_so_far(key, info_hash, reports);
    lemma_bytes_are_conserved(key, info_hash, reports);
    assert(stream + seq![] =~= stream);
    assert(b + seq![] =~= b);
    assert(stream_frames(codec, stream + seq![]) == taken(s, reports) + stream_frames(
        codec,
        b + seq![],
    ));
    assert(stream_frames(codec, b) =~= seq![]);
    assert(taken(s, reports) + seq![] =~= taken(s, reports));
}

/// How a stream is cut into reads does not matter. Of two connections that read
/// the same bytes, where one has caught up, the other did not end on a bad
/// frame; and when both have, they told the engine the same, in the same order,
/// and keep the same bytes.
pub proof fn lemma_cuts_do_not_matter(
    codec: spec_fn(Seq<u8>) -> Verdict,
    key: u64,
    info_hash: Seq<u8>,
    reports: Seq<Report>,
    others: Seq<Report>,
)
    requires
        stable(codec),
        answered(initial(key, info_hash), reports),
        answered(initial(key, info_hash), others),
        judged(codec, initial(key, info_hash), reports),
        judged(codec, initial(key, info_hash), others),
        received(reports) == received(others),
        caught_up(run(initial(key, info_hash), reports).phase),
        caught_up(run(initial(key, info_hash), others).phase) || run(
            initial(key, info_hash),
            others,
        ).phase == Phase::Ended(End::BadFrame),
    ensures
        caught_up(run(initial(key, info_hash), others).phase),
        taken(initial(key, info_hash), reports) == taken(initial(key, info_hash), others),
        notices(initial(key, info_hash), reports) == notices(initial(key, info_hash), others),
        run(initial(key, info_hash), reports).buffer == run(initial(key, info_hash), others).buffer,
{
    let s = initial(key, info_hash);
    lemma_frames_are_those_of_the_stream(codec, key, info_hash, reports);
    if caught_up(run(s, others).phase) {
        lemma_frames_are_those_of_the_stream(codec, key, info_hash, others);
    } else {
        let b = run(s, others).buffer;
        lemma_in_step(codec, key, info_hash, reports);
        lemma_in_step(codec, key, info_hash, others);
        assert(received(others) + seq![] =~= received(others));
        assert(b + seq![] =~= b);
        assert(stream_rest(codec, received(others) + seq![]) == stream_rest(codec, b + seq![]));
        assert(stream_rest(codec, b) == b);
    }
}

} // verus!
