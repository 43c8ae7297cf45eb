use enxamed::connection::{Connection, End, Signal, Task};
use enxamed::download::{
    block_offset, offset_fits, take_on, Action, Driver, Layout, Order, Unsupported,
};
use enxamed::peer_id::make_peer_id;
use enxamed::percent::percent_encode_into;

const KEY: u64 = 5;
const HASH: [u8; 20] = [7; 20];

fn exchanging() -> Connection {
    let mut c = Connection::new(KEY, HASH);
    assert_eq!(c.task(), Task::Connect);
    assert_eq!(c.step(Signal::Connected), Task::SendHandshake);
    assert_eq!(c.step(Signal::HandshakeSent), Task::ReadHandshake);
    assert_eq!(c.step(Signal::HandshakeRead(Some(HASH))), Task::Introduce(KEY));
    assert_eq!(c.step(Signal::Introduced), Task::Read);
    c
}

#[test]
fn peer_ids_have_the_prefix_and_digits() {
    assert_eq!(&make_peer_id(0), b"-EX0100-000000000000");
    // 0x04030201: the bytes 1, 2, 3, 4 in turn.
    assert_eq!(&make_peer_id(0x0403_0201), b"-EX0100-123412341234");
    // 0xfffefd0b: the bytes 11, 253, 254, 255.
    assert_eq!(&make_peer_id(0xfffe_fd0b), b"-EX0100-134513451345");
}

#[test]
fn peer_ids_need_no_escape() {
    for pid in [0, 1, 255, 256, 65535, 4194304, u32::MAX] {
        let id = make_peer_id(pid);
        let mut text = String::new();
        percent_encode_into(&mut text, &id);
        assert_eq!(text.as_bytes(), &id);
    }
}

#[test]
fn only_single_file_torrents_with_a_tracker_are_taken_on() {
    let url = || Some("http://t.example/a".to_string());
    let single = Layout::SingleFile { length: 9 };
    assert_eq!(take_on(single, url()), Ok((9, "http://t.example/a".to_string())));
    assert_eq!(take_on(single, None), Err(Unsupported::NoAnnounce));
    assert_eq!(take_on(Layout::MultiFile, url()), Err(Unsupported::MultiFile));
    assert_eq!(take_on(Layout::MultiFile, None), Err(Unsupported::MultiFile));
    assert!(Unsupported::NoAnnounce.message().contains("no http announce URL"));
    assert!(Unsupported::MultiFile.message().contains("single-file torrents only"));
}

#[test]
fn blocks_have_their_place_in_the_file() {
    assert_eq!(block_offset(0, 0, 16384), 0);
    assert_eq!(block_offset(3, 16384, 262144), 802816);
    assert_eq!(block_offset(u32::MAX, u32::MAX, u32::MAX as u64), 18446744069414584320);
    assert!(offset_fits(u32::MAX, u32::MAX, u32::MAX as u64));
    assert!(offset_fits(1, 0, u64::MAX));
    assert!(!offset_fits(1, 1, u64::MAX));
    assert!(!offset_fits(2, 0, u64::MAX));
}

#[test]
fn blocks_of_different_pieces_lie_apart() {
    let end = block_offset(4, 16384, 32768) + 16384;
    assert!(end <= block_offset(5, 0, 32768));
    assert!(block_offset(4, 0, 32768) + 16384 <= block_offset(4, 16384, 32768));
}

#[test]
fn actions_become_orders() {
    let mut driver = Driver::new(3, 100);
    let orders = driver.orders(
        &vec![
            Action::Send(0),
            Action::PieceVerified(4),
            Action::PieceCorrupt(5),
            Action::Send(3),
            Action::Disconnect(1),
        ],
        Some((2, 7)),
    );
    assert_eq!(
        orders,
        vec![
            Order::Deliver(0),
            Order::ReportVerified(4),
            Order::ReportCorrupt(5),
            Order::Discard(3),
            Order::HangUp(1),
            Order::Write(207),
        ]
    );
    assert!(driver.is_open(0) && !driver.is_open(1) && driver.is_open(2) && !driver.is_open(3));
    assert_eq!(driver.orders(&vec![], None), vec![]);
    assert_eq!(driver.orders(&vec![], Some((0, 1))), vec![Order::Write(1)]);
}

#[test]
fn nothing_is_sent_to_a_peer_after_it_was_disconnected() {
    let mut driver = Driver::new(1, 100);
    assert_eq!(
        driver.orders(&vec![Action::Send(0), Action::Disconnect(0), Action::Send(0)], None),
        vec![Order::Deliver(0), Order::HangUp(0), Order::Discard(0)]
    );
    assert_eq!(driver.orders(&vec![Action::Send(0)], None), vec![Order::Discard(0)]);
    assert_eq!(driver.orders(&vec![Action::Disconnect(9)], None), vec![Order::HangUp(9)]);
}

#[test]
fn the_end_of_the_download_ends_everything() {
    let mut driver = Driver::new(2, 100);
    let orders = driver.orders(
        &vec![Action::PieceVerified(0), Action::Complete, Action::Disconnect(0)],
        Some((0, 0)),
    );
    assert_eq!(orders, vec![Order::ReportVerified(0), Order::Write(0), Order::Finish]);
    assert!(driver.is_open(0));
    assert_eq!(driver.orders(&vec![Action::Complete], None), vec![Order::Finish]);
    let mut huge = Driver::new(0, u64::MAX);
    assert_eq!(huge.orders(&vec![Action::Complete], Some((1, 1))), vec![Order::Finish]);
    assert_eq!(
        huge.orders(&vec![Action::Complete], Some((1, 0))),
        vec![Order::Write(u64::MAX), Order::Finish]
    );
}

#[test]
fn frames_are_taken_off_the_front() {
    let mut c = exchanging();
    assert_eq!(c.step(Signal::Received(vec![1, 2, 3])), Task::Decode);
    assert_eq!(c.step(Signal::Incomplete), Task::Read);
    assert_eq!(c.step(Signal::Received(vec![4, 5])), Task::Decode);
    assert_eq!(c.buffered(), &[1, 2, 3, 4, 5]);
    assert_eq!(c.step(Signal::Frame(4)), Task::Forward(KEY));
    assert_eq!(c.buffered(), &[5]);
    assert_eq!(c.step(Signal::Forwarded(true)), Task::Decode);
    assert_eq!(c.step(Signal::Frame(1)), Task::Forward(KEY));
    assert_eq!(c.buffered(), &[] as &[u8]);
    assert_eq!(c.step(Signal::Forwarded(false)), Task::Stop(End::EngineGone));
    assert_eq!(c.task(), Task::Stop(End::EngineGone));
}

#[test]
fn connections_end_as_they_should() {
    let mut c = Connection::new(KEY, HASH);
    assert_eq!(c.step(Signal::ConnectTimedOut), Task::Stop(End::ConnectTimeout));
    let mut c = Connection::new(KEY, HASH);
    assert_eq!(c.step(Signal::SocketFailed), Task::Stop(End::SocketFailed));
    let mut c = exchanging();
    assert_eq!(c.step(Signal::Received(vec![])), Task::Stop(End::PeerClosed));
    let mut c = exchanging();
    assert_eq!(c.step(Signal::Received(vec![9])), Task::Decode);
    assert_eq!(c.step(Signal::BadFrame), Task::Stop(End::BadFrame));
    let mut c = exchanging();
    assert_eq!(c.step(Signal::SocketFailed), Task::Stop(End::SocketFailed));
}

#[test]
fn peers_with_another_torrent_are_left() {
    for (hash, end) in [(None, End::BadHandshake), (Some([8; 20]), End::WrongTorrent)] {
        let mut c = Connection::new(KEY, HASH);
        c.step(Signal::Connected);
        c.step(Signal::HandshakeSent);
        assert_eq!(c.step(Signal::HandshakeRead(hash)), Task::Stop(end));
    }
}

#[test]
fn the_engine_hears_of_failures_only() {
    for end in [End::PeerClosed, End::EngineGone] {
        assert!(!end.reports_gone());
        assert!(end.stops_writer());
    }
    for end in [
        End::ConnectTimeout,
        End::SocketFailed,
        End::BadHandshake,
        End::WrongTorrent,
        End::BadFrame,
    ] {
        assert!(end.reports_gone());
        assert!(!end.stops_writer());
    }
}

#[test]
fn failures_are_told_in_words() {
    let text = |end: End| end.message("cause");
    assert_eq!(text(End::PeerClosed), None);
    assert_eq!(text(End::EngineGone), None);
    assert_eq!(text(End::ConnectTimeout).unwrap(), "connect timeout");
    assert_eq!(text(End::SocketFailed).unwrap(), "cause");
    assert_eq!(text(End::BadHandshake).unwrap(), "bad handshake: cause");
    assert_eq!(text(End::WrongTorrent).unwrap(), "peer offered a different info-hash");
    assert_eq!(text(End::BadFrame).unwrap(), "frame: cause");
}

/// Drives a connection over the reads; a frame is a length byte and as many
/// bytes. Tells what is handed on, and what is kept when the peer closes.
fn handed_on(reads: &[&[u8]]) -> (Vec<Vec<u8>>, Vec<u8>) {
    let mut c = exchanging();
    let mut frames = Vec::new();
    let mut reads = reads.iter();
    let mut task = c.task();
    loop {
        let signal = match task {
            Task::Read => Signal::Received(reads.next().map_or(vec![], |r| r.to_vec())),
            Task::Decode => match c.buffered() {
                [n, rest @ ..] if rest.len() >= *n as usize => {
                    frames.push(rest[..*n as usize].to_vec());
                    Signal::Frame(*n as usize + 1)
                }
                _ => Signal::Incomplete,
            },
            Task::Forward(key) => {
                assert_eq!(key, KEY);
                Signal::Forwarded(true)
            }
            Task::Stop(end) => {
                assert_eq!(end, End::PeerClosed);
                return (frames, c.buffered().to_vec());
            }
            other => panic!("{other:?}"),
        };
        task = c.step(signal);
    }
}

#[test]
fn cuts_between_reads_do_not_matter() {
    let stream = [2, 10, 11, 0, 3, 1, 2, 3, 1, 9, 4, 7];
    let expected = (vec![vec![10, 11], vec![], vec![1, 2, 3], vec![9]], vec![4, 7]);
    assert_eq!(handed_on(&[&stream]), expected);
    for cut in 1..stream.len() {
        assert_eq!(handed_on(&[&stream[..cut], &stream[cut..]]), expected);
    }
    let single: Vec<&[u8]> = stream.chunks(1).collect();
    assert_eq!(handed_on(&single), expected);
}
