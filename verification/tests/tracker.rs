use enxamed::announce::{announce_request, AnnounceRequest};
use enxamed::bencode::grammar::SyntaxError;
use enxamed::decimal::push_u64;
use enxamed::error::TrackerError;
use enxamed::http::split_http_body;
use enxamed::peers::{parse_peers, parse_response, resolve, Endpoint, IpAddress, ListedPeer, Peers};
use enxamed::percent::percent_encode_into;

fn v4(a: u8, b: u8, c: u8, d: u8, port: u16) -> Endpoint {
    Endpoint { ip: IpAddress::V4(a, b, c, d), port }
}

fn shown(peer: &Endpoint) -> String {
    match peer.ip {
        IpAddress::V4(a, b, c, d) => format!("{a}.{b}.{c}.{d}:{}", peer.port),
        IpAddress::V6(bytes) => format!("{bytes:?}:{}", peer.port),
    }
}

fn listed(ip: &str, port: u16) -> ListedPeer {
    ListedPeer { ip: ip.to_string(), port }
}

fn request(url: &str) -> AnnounceRequest {
    announce_request(url, &[b'h'; 20], &[0; 20], 6881, 42).unwrap()
}

#[test]
fn parses_compact_peers() {
    // d5:peers6:<1.2.3.4:6881>e
    let mut body = Vec::new();
    body.extend_from_slice(b"d5:peers6:");
    body.extend_from_slice(&[1, 2, 3, 4, 0x1a, 0xe1]); // 6881 = 0x1ae1
    body.push(b'e');
    let peers = match parse_peers(&body).unwrap() {
        Peers::Compact(peers) => peers,
        other => panic!("{other:?}"),
    };
    let texts: Vec<String> = peers.iter().map(shown).collect();
    assert_eq!(texts, vec!["1.2.3.4:6881".to_string()]);
}

#[test]
fn surfaces_tracker_failure() {
    let err = parse_peers(b"d14:failure reason4:nopee").unwrap_err();
    assert!(err.message().contains("nope"));
}

#[test]
fn percent_encodes_binary() {
    let mut s = String::new();
    percent_encode_into(&mut s, &[0x00, 0xff, b'A', b'-']);
    assert_eq!(s, "%00%FFA-");
}

#[test]
fn splits_http_body() {
    assert_eq!(split_http_body(b"HTTP/1.0 200 OK\r\n\r\nbody"), Some(b"body".as_slice()));
}

#[test]
fn percent_encoding_of_every_byte_can_be_read_back() {
    for b in 0..=255u8 {
        let mut s = String::new();
        percent_encode_into(&mut s, &[b]);
        if b.is_ascii_alphanumeric() || b"-_.~".contains(&b) {
            assert_eq!(s.as_bytes(), &[b]);
        } else {
            assert_eq!(s, format!("%{b:02X}"));
        }
    }
}

#[test]
fn percent_encoding_appends_field_by_field() {
    let mut both = String::from("x=");
    percent_encode_into(&mut both, b"a b");
    percent_encode_into(&mut both, b"~/");
    let mut once = String::from("x=");
    percent_encode_into(&mut once, b"a b~/");
    assert_eq!(both, once);
    assert_eq!(both, "x=a%20b~%2F");
}

#[test]
fn numbers_are_written_in_decimal() {
    for n in [0u64, 7, 10, 99, 100, 6881, 1_000_000, 18446744073709551615] {
        let mut s = String::from("left=");
        push_u64(&mut s, n);
        assert_eq!(s, format!("left={n}"));
        assert_eq!(s["left=".len()..].parse::<u64>().unwrap(), n);
    }
}

#[test]
fn notation_keeps_the_order_of_numbers() {
    let text = |n: u64| {
        let mut s = String::new();
        push_u64(&mut s, n);
        s
    };
    for (m, n) in [(0, 1), (9, 10), (10, 11), (19, 20), (99, 100), (1999, 2001), (5, u64::MAX)] {
        let (s, t) = (text(m), text(n));
        assert!(s.len() < t.len() || (s.len() == t.len() && s < t), "{m} {n}");
    }
}

#[test]
fn body_starts_after_the_first_empty_line() {
    assert_eq!(split_http_body(b"a\r\n\r\nb\r\n\r\nc"), Some(b"b\r\n\r\nc".as_slice()));
    assert_eq!(split_http_body(b"a\r\n\r\n"), Some(b"".as_slice()));
    assert_eq!(split_http_body(b"\r\n\r\n\r\n"), Some(b"\r\n".as_slice()));
    assert_eq!(split_http_body(b"a\r\nb\n\n"), None);
    assert_eq!(split_http_body(b"\r\n\r"), None);
    assert_eq!(split_http_body(b""), None);
}

#[test]
fn the_whole_request_is_as_expected() {
    let made = announce_request(
        "http://tracker.example:8080/announce",
        b"\x00\x01abcdefghijklmnop\xfe\xff",
        b"-EX0100-012345678901",
        6881,
        1000,
    )
    .unwrap();
    assert_eq!(made.host, "tracker.example");
    assert_eq!(made.port, 8080);
    assert_eq!(
        made.text,
        "GET /announce?info_hash=%00%01abcdefghijklmnop%FE%FF&peer_id=-EX0100-012345678901\
         &port=6881&uploaded=0&downloaded=0&left=1000&compact=1&event=started HTTP/1.0\r\n\
         Host: tracker.example\r\nUser-Agent: enxame/0.1\r\nAccept: */*\r\nConnection: close\r\n\r\n"
    );
}

#[test]
fn trackers_have_a_default_port_and_path() {
    let bare = request("http://t.example");
    assert_eq!((bare.host.as_str(), bare.port), ("t.example", 80));
    assert!(bare.text.starts_with("GET /?info_hash=hhhhhhhhhhhhhhhhhhhh&peer_id=%00%00"));
    assert!(bare.text.ends_with("\r\n\r\n"));
    let slash = request("http://t.example/");
    assert_eq!(slash.text, bare.text);
}

#[test]
fn ports_are_read_or_else_eighty() {
    for (text, port) in [
        ("8080", 8080),
        ("+8080", 8080),
        ("0080", 80),
        ("65535", 65535),
        ("0", 0),
        ("65536", 80),
        ("99999999999999999999", 80),
        ("", 80),
        ("+", 80),
        ("-1", 80),
        ("++1", 80),
        ("8o", 80),
        ("80:81", 80),
    ] {
        let made = request(&format!("http://t.example:{text}/a"));
        assert_eq!(made.port, port, "{text}");
        assert_eq!(made.host, "t.example");
    }
}

#[test]
fn the_path_starts_with_one_slash() {
    assert!(request("http://t.example///a//b").text.starts_with("GET /a//b?info_hash="));
    assert!(request("http://t.example//").text.starts_with("GET /?info_hash="));
}

#[test]
fn a_query_in_the_url_is_kept() {
    assert!(request("http://t.example/a?key=1").text.starts_with("GET /a?key=1&info_hash="));
}

#[test]
fn a_colon_in_the_path_is_no_port() {
    let made = request("http://t.example/a:b");
    assert_eq!((made.host.as_str(), made.port), ("t.example", 80));
    assert!(made.text.starts_with("GET /a:b?"));
}

#[test]
fn hosts_beyond_ascii_are_kept() {
    let made = request("http://t\u{e9}.example:81/\u{20ac}");
    assert_eq!((made.host.as_str(), made.port), ("t\u{e9}.example", 81));
    assert!(made.text.starts_with("GET /\u{20ac}?"));
}

#[test]
fn other_schemes_are_refused() {
    for url in ["https://t.example/a", "udp://t.example:80", "HTTP://t.example", "http:/", ""] {
        let err = announce_request(url, &[0; 20], &[0; 20], 1, 1).unwrap_err();
        assert_eq!(err, TrackerError::UnsupportedScheme);
        assert_eq!(err.message(), "only http:// trackers are supported in this MVP");
    }
}

#[test]
fn different_announcements_make_different_requests() {
    let url = "http://t.example/a";
    let base = announce_request(url, &[1; 20], &[2; 20], 12, 3).unwrap().text;
    assert_ne!(base, announce_request(url, &[3; 20], &[2; 20], 12, 3).unwrap().text);
    assert_ne!(base, announce_request(url, &[1; 20], &[3; 20], 12, 3).unwrap().text);
    assert_ne!(base, announce_request(url, &[1; 20], &[2; 20], 1, 3).unwrap().text);
    assert_ne!(base, announce_request(url, &[1; 20], &[2; 20], 12, 23).unwrap().text);
}

#[test]
fn compact_peers_come_in_order_and_a_remainder_is_ignored() {
    let mut body = b"d8:intervali1800e5:peers14:".to_vec();
    body.extend_from_slice(&[10, 0, 0, 1, 0, 80, 255, 255, 255, 255, 255, 255, 9, 9]);
    body.push(b'e');
    assert_eq!(
        parse_peers(&body),
        Ok(Peers::Compact(vec![v4(10, 0, 0, 1, 80), v4(255, 255, 255, 255, 65535)]))
    );
    assert_eq!(parse_peers(b"d5:peers0:e"), Ok(Peers::Compact(vec![])));
}

#[test]
fn listed_peers_come_in_order_and_others_are_passed_over() {
    let body = b"d5:peersl\
        d2:ip9:127.0.0.14:porti6881ee\
        d2:ip7:1.2.3.44:porti65536ee\
        d2:ip7:1.2.3.44:porti-1ee\
        d2:ip7:1.2.3.4e\
        d4:porti80ee\
        d2:ipi5e4:porti80ee\
        d2:ip1:\xff4:porti80ee\
        d2:ip3:::14:port2:80e\
        i7e\
        d2:ip3:::17:peer id2:xx4:porti0ee\
        d2:ip7:example4:porti65535ee\
        ee";
    assert_eq!(
        parse_peers(body),
        Ok(Peers::Listed(vec![
            listed("127.0.0.1", 6881),
            listed("::1", 0),
            listed("example", 65535),
        ]))
    );
}

#[test]
fn listed_peers_are_resolved_by_their_addresses() {
    let peers = vec![listed("127.0.0.1", 6881), listed("example", 1), listed("::1", 2)];
    let mut one = [0; 16];
    one[15] = 1;
    let ips = vec![Some(IpAddress::V4(127, 0, 0, 1)), None, Some(IpAddress::V6(one))];
    assert_eq!(
        resolve(&peers, &ips),
        vec![v4(127, 0, 0, 1, 6881), Endpoint { ip: IpAddress::V6(one), port: 2 }]
    );
    assert_eq!(resolve(&vec![], &vec![]), vec![]);
}

#[test]
fn a_refusal_comes_before_the_peers() {
    assert_eq!(
        parse_peers(b"d14:failure reason4:nope5:peers0:e"),
        Err(TrackerError::Failure("nope".to_string()))
    );
    let err = parse_peers(b"d14:failure reason6:\xe2\x82\xac!!!e").unwrap_err();
    assert_eq!(err.message(), "tracker failure: \u{20ac}!!!");
}

#[test]
fn a_reason_that_is_no_text_is_no_refusal() {
    assert_eq!(
        parse_peers(b"d14:failure reason1:\xff5:peers0:e"),
        Ok(Peers::Compact(vec![]))
    );
    assert_eq!(
        parse_peers(b"d14:failure reasoni3e5:peers0:e"),
        Ok(Peers::Compact(vec![]))
    );
}

#[test]
fn answers_without_usable_peers_are_refused() {
    let missing = parse_peers(b"d8:intervali1800ee").unwrap_err();
    assert_eq!(missing, TrackerError::MissingPeers);
    assert_eq!(missing.message(), "tracker response has no `peers`");
    assert_eq!(parse_peers(b"i5e"), Err(TrackerError::MissingPeers));
    let odd = parse_peers(b"d5:peersi5ee").unwrap_err();
    assert_eq!(odd, TrackerError::UnrecognizedPeers);
    assert_eq!(odd.message(), "tracker `peers` is neither compact bytes nor a list");
    assert_eq!(parse_peers(b"d5:peersdee"), Err(TrackerError::UnrecognizedPeers));
}

#[test]
fn bodies_that_are_not_bencoded_are_refused() {
    for (body, error, message) in [
        (b"".as_slice(), SyntaxError::Empty, "tracker bencode: no value"),
        (b"<html>", SyntaxError::Malformed, "tracker bencode: malformed value"),
        (b"d5:peers0:", SyntaxError::Malformed, "tracker bencode: malformed value"),
        (b"d5:peers9:abce", SyntaxError::Malformed, "tracker bencode: malformed value"),
        (
            b"d5:peers0:ex",
            SyntaxError::TrailingBytes(11),
            "tracker bencode: trailing bytes at offset 11",
        ),
    ] {
        let err = parse_peers(body).unwrap_err();
        assert_eq!(err, TrackerError::Bencode(error));
        assert_eq!(err.message(), message);
    }
}

#[test]
fn a_whole_response_is_read() {
    let mut response = b"HTTP/1.0 200 OK\r\nContent-Type: text/plain\r\n\r\nd5:peers6:".to_vec();
    response.extend_from_slice(&[1, 2, 3, 4, 0x1a, 0xe1, b'e']);
    assert_eq!(parse_response(&response), Ok(Peers::Compact(vec![v4(1, 2, 3, 4, 6881)])));
    let err = parse_response(b"HTTP/1.0 200 OK\r\nd5:peers0:e").unwrap_err();
    assert_eq!(err, TrackerError::MalformedResponse);
    assert_eq!(err.message(), "malformed tracker HTTP response");
    assert_eq!(
        parse_response(b"HTTP/1.0 403 No\r\n\r\nd14:failure reason4:nopee"),
        Err(TrackerError::Failure("nope".to_string()))
    );
}
