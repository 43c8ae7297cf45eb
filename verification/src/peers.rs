//! The tracker's answer: the peers it names, or why it names none.
use crate::bencode::grammar::{decode, encode, lemma_decode_of_encode, syntax_error, Value};
use crate::bencode::reader::parse;
use crate::bencode::value::{item_values, lookup, Bencode};
use crate::error::{ErrorKind, TrackerError};
use crate::http::{header_terminator, http_body, lemma_body_follows_header, split_http_body};
use vstd::prelude::*;
use vstd::utf8::{encode_utf8, encode_utf8_decode_utf8, encode_utf8_valid_utf8};

verus! {

/// An IP address: the four bytes of a version 4 address, or the sixteen of a
/// version 6 address.
#[derive(Debug, Clone, Copy, PartialEq, Eq)]
pub enum IpAddress {
    V4(u8, u8, u8, u8),
    V6([u8; 16]),
}

/// Where a peer listens.
#[derive(Debug, Clone, Copy, PartialEq, Eq)]
pub struct Endpoint {
    pub ip: IpAddress,
    pub port: u16,
}

/// A peer of which the address is still text.
#[derive(Debug, PartialEq, Eq)]
pub struct ListedPeer {
    pub ip: String,
    pub port: u16,
}

impl ListedPeer {
    /// The text and the port.
    pub open spec fn view(self) -> (Seq<char>, u16) {
        (self.ip@, self.port)
    }
}

/// The peers of an answer, in the form that the tracker chose.
#[derive(Debug, PartialEq, Eq)]
pub enum Peers {
    /// One byte string with six bytes for each peer.
    Compact(Vec<Endpoint>),
    /// A list with a dictionary for each peer.
    Listed(Vec<ListedPeer>),
}

/// The peers of an answer, apart from their representation.
pub enum Answer {
    Compact(Seq<Endpoint>),
    Listed(Seq<(Seq<char>, u16)>),
}

/// The peers of a list, apart from their representation.
pub open spec fn listed_view(peers: Seq<ListedPeer>) -> Seq<(Seq<char>, u16)> {
    Seq::new(peers.len(), |i: int| peers[i]@)
}

impl Peers {
    /// The peers, apart from their representation.
    pub open spec fn view(self) -> Answer {
        match self {
            Peers::Compact(peers) => Answer::Compact(peers@),
            Peers::Listed(peers) => Answer::Listed(listed_view(peers@)),
        }
    }
}

/// The peer that six bytes name: an IP address of four bytes and a port of two,
/// the more significant first.
pub open spec fn compact_peer(c: Seq<u8>) -> Endpoint {
    Endpoint { ip: IpAddress::V4(c[0], c[1], c[2], c[3]), port: (c[4] * 256 + c[5]) as u16 }
}

/// The peers that a byte string names, six bytes for each; bytes that are left
/// over at the end name none.
pub open spec fn compact_peers(b: Seq<u8>) -> Seq<Endpoint> {
    Seq::new(b.len() / 6, |i: int| compact_peer(b.subrange(6 * i, 6 * i + 6)))
}

/// The peer that a dictionary names by its `ip`, a text, and its `port`, a
/// number in the range of ports; anything else names none.
pub open spec fn listed_peer(v: Value) -> Option<(Seq<char>, u16)> {
    match (v.text_field(encode_utf8("ip"@)), v.number_field(encode_utf8("port"@))) {
        (Some(ip), Some(port)) if 0 <= port <= u16::MAX => Some((ip, port as u16)),
        _ => None,
    }
}

/// The peers that the items of a list name, in the order of the list.
pub open spec fn listed_peers(items: Seq<Value>) -> Seq<(Seq<char>, u16)>
    decreases items.len(),
{
    if items.len() == 0 {
        seq![]
    } else {
        let before = listed_peers(items.drop_last());
        match listed_peer(items.last()) {
            Some(peer) => before.push(peer),
            None => before,
        }
    }
}

/// What an answer says: why the tracker refuses, if it gives a reason in text;
/// otherwise its peers.
pub open spec fn answer_of(v: Value) -> Result<Answer, ErrorKind> {
    match v.text_field(encode_utf8("failure reason"@)) {
        Some(reason) => Err(ErrorKind::Failure(reason)),
        None => match v.field(encode_utf8("peers"@)) {
            Some(Value::Bytes(b)) => Ok(Answer::Compact(compact_peers(b))),
            Some(Value::List(items)) => Ok(Answer::Listed(listed_peers(items))),
            Some(_) => Err(ErrorKind::UnrecognizedPeers),
            None => Err(ErrorKind::MissingPeers),
        },
    }
}

/// What the body of a response says.
pub open spec fn body_answer(body: Seq<u8>) -> Result<Answer, ErrorKind> {
    match decode(body) {
        Some(v) => answer_of(v),
        None => Err(ErrorKind::Bencode(syntax_error(body))),
    }
}

/// What a response says.
pub open spec fn response_answer(response: Seq<u8>) -> Result<Answer, ErrorKind> {
    match http_body(response) {
        Some(body) => body_answer(body),
        None => Err(ErrorKind::MalformedResponse),
    }
}

/// Whether a result in memory is the given one.
pub open spec fn is_answer(
    result: Result<Peers, TrackerError>,
    answer: Result<Answer, ErrorKind>,
) -> bool {
    match result {
        Ok(peers) => answer == Ok::<Answer, ErrorKind>(peers@),
        Err(error) => answer == Err::<Answer, ErrorKind>(error@),
    }
}

/// Reads the compact form.
fn read_compact(b: &[u8]) -> (peers: Vec<Endpoint>)
    ensures
        peers@ == compact_peers(b@),
{
    let mut peers: Vec<Endpoint> = Vec::new();
    let mut at: usize = 0;
    while b.len() - at >= 6
        invariant
            at <= b.len(),
            at == 6 * peers.len(),
            forall|i: int|
                0 <= i < peers.len() ==> #[trigger] peers@[i] == compact_peer(
                    b@.subrange(6 * i, 6 * i + 6),
                ),
        decreases b.len() - at,
    {
        let ghost c = b@.subrange(at as int, at + 6);
        let port: u16 = b[at + 4] as u16 * 256 + b[at + 5] as u16;
        let peer = Endpoint { ip: IpAddress::V4(b[at], b[at + 1], b[at + 2], b[at + 3]), port };
        assert(c[0] == b@[at as int] && c[1] == b@[at + 1] && c[2] == b@[at + 2] && c[3] == b@[at
            + 3] && c[4] == b@[at + 4] && c[5] == b@[at + 5]);
        peers.push(peer);
        at = at + 6;
    }
    assert(peers@ =~= compact_peers(b@));
    peers
}

/// Reads one item of the list form.
fn read_listed_peer(item: &Bencode) -> (peer: Option<ListedPeer>)
    ensures
        peer is Some <==> listed_peer(item@) is Some,
        peer matches Some(p) ==> listed_peer(item@) == Some(p@),
{
    let ip = match item.get("ip".as_bytes()) {
        Some(v) => match v.as_str() {
            Some(ip) => ip,
            None => {
                return None;
            },
        },
        None => {
            return None;
        },
    };
    let port = match item.get("port".as_bytes()) {
        Some(v) => match v.as_int() {
            Some(port) => port,
            None => {
                return None;
            },
        },
        None => {
            return None;
        },
    };
    if 0 <= port && port <= u16::MAX as i64 {
        Some(ListedPeer { ip: ip.to_owned(), port: port as u16 })
    } else {
        None
    }
}

/// Reads the list form, passing over the items that name no peer.
fn read_listed(items: &Vec<Bencode>) -> (peers: Vec<ListedPeer>)
    ensures
        listed_view(peers@) == listed_peers(item_values(items@)),
{
    let ghost all = item_values(items@);
    let mut peers: Vec<ListedPeer> = Vec::new();
    let mut i: usize = 0;
    assert(listed_view(peers@) =~= listed_peers(all.take(0)));
    while i < items.len()
        invariant
            i <= items.len(),
            all == item_values(items@),
            listed_view(peers@) == listed_peers(all.take(i as int)),
        decreases items.len() - i,
    {
        let ghost before = peers@;
        proof {
            let head = all.take(i + 1);
            assert(head.last() == items@[i as int]@);
            assert(head.drop_last() =~= all.take(i as int));
        }
        match read_listed_peer(&items[i]) {
            Some(peer) => {
                peers.push(peer);
                assert(listed_view(peers@) =~= listed_view(before).push(peer@));
            },
            None => {},
        }
        i = i + 1;
    }
    assert(all.take(i as int) =~= all);
    peers
}

/// Reads an answer that has been taken apart.
pub fn peers_of(value: &Bencode) -> (result: Result<Peers, TrackerError>)
    ensures
        is_answer(result, answer_of(value@)),
{
    if let Some(reason) = value.get("failure reason".as_bytes()) {
        if let Some(text) = reason.as_str() {
            return Err(TrackerError::Failure(text.to_owned()));
        }
    }
    match value.get("peers".as_bytes()) {
        Some(Bencode::Bytes(b)) => Ok(Peers::Compact(read_compact(b.as_slice()))),
        Some(Bencode::List(items)) => Ok(Peers::Listed(read_listed(items))),
        Some(_) => Err(TrackerError::UnrecognizedPeers),
        None => Err(TrackerError::MissingPeers),
    }
}

/// Reads the body of a response.
pub fn parse_peers(body: &[u8]) -> (result: Result<Peers, TrackerError>)
    ensures
        is_answer(result, body_answer(body@)),
{
    match parse(body) {
        Ok(value) => peers_of(&value),
        Err(e) => Err(TrackerError::Bencode(e)),
    }
}

/// Reads a whole response.
pub fn parse_response(response: &[u8]) -> (result: Result<Peers, TrackerError>)
    ensures
        is_answer(result, response_answer(response@)),
{
    match split_http_body(response) {
        Some(body) => parse_peers(body),
        None => Err(TrackerError::MalformedResponse),
    }
}

/// The peers of a list of which the address could be read, in the order of the
/// list; `ips` has, for each peer, what its address was read as.
pub open spec fn resolved(listed: Seq<(Seq<char>, u16)>, ips: Seq<Option<IpAddress>>) -> Seq<
    Endpoint,
>
    decreases listed.len(),
{
    if listed.len() == 0 {
        seq![]
    } else {
        let before = resolved(listed.drop_last(), ips.drop_last());
        match ips.last() {
            Some(ip) => before.push(Endpoint { ip, port: listed.last().1 }),
            None => before,
        }
    }
}

/// Joins the peers of a list with what their addresses were read as, and drops
/// those of which the address is none.
pub fn resolve(listed: &Vec<ListedPeer>, ips: &Vec<Option<IpAddress>>) -> (peers: Vec<Endpoint>)
    requires
        listed.len() == ips.len(),
    ensures
        peers@ == resolved(listed_view(listed@), ips@),
{
    let ghost all = listed_view(listed@);
    let mut peers: Vec<Endpoint> = Vec::new();
    let mut i: usize = 0;
    while i < listed.len()
        invariant
            i <= listed.len(),
            listed.len() == ips.len(),
            all == listed_view(listed@),
            peers@ == resolved(all.take(i as int), ips@.take(i as int)),
        decreases listed.len() - i,
    {
        proof {
            let (head, head_ips) = (all.take(i + 1), ips@.take(i + 1));
            assert(head.drop_last() =~= all.take(i as int));
            assert(head_ips.drop_last() =~= ips@.take(i as int));
            assert(head.last() == listed@[i as int]@);
            assert(head_ips.last() == ips@[i as int]);
        }
        if let Some(ip) = ips[i] {
            peers.push(Endpoint { ip, port: listed[i].port });
        }
        i = i + 1;
    }
    assert(all.take(i as int) =~= all);
    assert(ips@.take(i as int) =~= ips@);
    peers
}

/// The six bytes by which the compact form names a peer with a version 4
/// address.
pub open spec fn compact_entry(peer: Endpoint) -> Seq<u8> {
    match peer.ip {
        IpAddress::V4(a, b, c, d) => seq![
            a,
            b,
            c,
            d,
            (peer.port / 256) as u8,
            (peer.port % 256) as u8,
        ],
        IpAddress::V6(_) => seq![],
    }
}

/// The byte string by which the compact form names peers.
pub open spec fn compact_bytes(peers: Seq<Endpoint>) -> Seq<u8>
    decreases peers.len(),
{
    if peers.len() == 0 {
        seq![]
    } else {
        compact_bytes(peers.drop_last()) + compact_entry(peers.last())
    }
}

/// Whether every peer has a version 4 address.
pub open spec fn all_v4(peers: Seq<Endpoint>) -> bool {
    forall|i: int| 0 <= i < peers.len() ==> (#[trigger] peers[i]).ip is V4
}

/// Every peer that the compact form names is read back, in order, and up to
/// five bytes that follow the last change nothing.
pub proof fn lemma_compact_peers_are_read_back(peers: Seq<Endpoint>, extra: Seq<u8>)
    requires
        all_v4(peers),
        extra.len() < 6,
    ensures
        compact_bytes(peers).len() == 6 * peers.len(),
        compact_peers(compact_bytes(peers) + extra) == peers,
    decreases peers.len(),
{
    if peers.len() == 0 {
        assert(compact_peers(compact_bytes(peers) + extra) =~= peers);
    } else {
        let front = peers.drop_last();
        let last = peers.last();
        let bytes = compact_bytes(peers) + extra;
        let n = front.len() as int;
        assert(all_v4(front)) by {
            assert forall|i: int| 0 <= i < front.len() implies (#[trigger] front[i]).ip is V4 by {
                assert(front[i] == peers[i]);
            }
        }
        assert(peers[n].ip is V4);
        lemma_compact_peers_are_read_back(front, seq![]);
        let short = compact_bytes(front) + seq![];
        assert(bytes.len() == 6 * (n + 1) + extra.len());
        assert(compact_peers(bytes).len() == n + 1);
        assert forall|i: int| 0 <= i < n + 1 implies #[trigger] compact_peers(bytes)[i]
            == peers[i] by {
            let c = bytes.subrange(6 * i, 6 * i + 6);
            if i < n {
                assert(c =~= short.subrange(6 * i, 6 * i + 6));
                assert(compact_peers(short)[i] == front[i]);
            } else {
                assert(c =~= compact_entry(last));
                assert(compact_peer(c) == last) by {
                    assert(c[4] == last.port / 256 && c[5] == last.port % 256);
                }
            }
        }
        assert(compact_peers(bytes) =~= peers);
    }
}

/// The items of a list are read one by one: what is read of two lists joined is
/// what is read of each, joined.
pub proof fn lemma_listed_peers_concat(a: Seq<Value>, b: Seq<Value>)
    ensures
        listed_peers(a + b) == listed_peers(a) + listed_peers(b),
    decreases b.len(),
{
    if b.len() == 0 {
        assert(a + b =~= a);
        assert(listed_peers(a) + listed_peers(b) =~= listed_peers(a));
    } else {
        lemma_listed_peers_concat(a, b.drop_last());
        assert((a + b).drop_last() =~= a + b.drop_last());
        assert(listed_peers(a + b) =~= listed_peers(a) + listed_peers(b));
    }
}

/// Nobody is made up: every peer of a resolved list stands in the list, with
/// the address that its text was read as.
pub proof fn lemma_resolved_peers_are_listed(
    listed: Seq<(Seq<char>, u16)>,
    ips: Seq<Option<IpAddress>>,
    k: int,
)
    requires
        listed.len() == ips.len(),
        0 <= k < resolved(listed, ips).len(),
    ensures
        exists|i: int|
            0 <= i < listed.len() && #[trigger] ips[i] == Some(resolved(listed, ips)[k].ip)
                && listed[i].1 == resolved(listed, ips)[k].port,
    decreases listed.len(),
{
    let (front, front_ips) = (listed.drop_last(), ips.drop_last());
    let before = resolved(front, front_ips);
    if k < before.len() {
        lemma_resolved_peers_are_listed(front, front_ips, k);
        let i = choose|i: int|
            0 <= i < front.len() && #[trigger] front_ips[i] == Some(before[k].ip) && front[i].1
                == before[k].port;
        assert(ips[i] == front_ips[i]);
    } else {
        assert(ips[listed.len() - 1] == ips.last());
    }
}

/// Nobody is lost: every peer of a list of which the address could be read is
/// among the resolved.
pub proof fn lemma_readable_peers_are_resolved(
    listed: Seq<(Seq<char>, u16)>,
    ips: Seq<Option<IpAddress>>,
    i: int,
)
    requires
        listed.len() == ips.len(),
        0 <= i < listed.len(),
        ips[i] is Some,
    ensures
        resolved(listed, ips).contains(Endpoint { ip: ips[i]->0, port: listed[i].1 }),
    decreases listed.len(),
{
    let (front, front_ips) = (listed.drop_last(), ips.drop_last());
    let before = resolved(front, front_ips);
    let peer = Endpoint { ip: ips[i]->0, port: listed[i].1 };
    if i < front.len() {
        lemma_readable_peers_are_resolved(front, front_ips, i);
        assert(front_ips[i] == ips[i] && front[i] == listed[i]);
        let k = choose|k: int| 0 <= k < before.len() && before[k] == peer;
        assert(resolved(listed, ips)[k] == peer);
    } else {
        assert(resolved(listed, ips)[before.len() as int] == peer);
    }
}

/// A refusal is surfaced: whatever else an answer holds, its reason is the
/// result, and what is said of it ends with the tracker's own words.
pub proof fn lemma_refusal_is_surfaced(header: Seq<u8>, v: Value, reason: Seq<char>)
    requires
        forall|i: int|
            !#[trigger] crate::http::terminator_at(header + header_terminator().take(3), i),
        v.text_field(encode_utf8("failure reason"@)) == Some(reason),
    ensures
        body_answer(encode(v)) == Err::<Answer, ErrorKind>(ErrorKind::Failure(reason)),
        response_answer(header + header_terminator() + encode(v)) == Err::<Answer, ErrorKind>(
            ErrorKind::Failure(reason),
        ),
        ErrorKind::Failure(reason).text() == "tracker failure: "@ + reason,
{
    lemma_decode_of_encode(v);
    lemma_body_follows_header(header, encode(v));
}

/// What a tracker says of its peers in compact form is what the client reads,
/// from the first byte of the response to the last.
pub proof fn lemma_compact_answer_is_read_back(header: Seq<u8>, v: Value, peers: Seq<Endpoint>)
    requires
        forall|i: int|
            !#[trigger] crate::http::terminator_at(header + header_terminator().take(3), i),
        all_v4(peers),
        v.text_field(encode_utf8("failure reason"@)) is None,
        v.field(encode_utf8("peers"@)) == Some(Value::Bytes(compact_bytes(peers))),
    ensures
        response_answer(header + header_terminator() + encode(v)) == Ok::<Answer, ErrorKind>(
            Answer::Compact(peers),
        ),
{
    lemma_decode_of_encode(v);
    lemma_body_follows_header(header, encode(v));
    lemma_compact_peers_are_read_back(peers, seq![]);
    assert(compact_bytes(peers) + seq![] =~= compact_bytes(peers));
}

/// The dictionary by which the list form names a peer.
pub open spec fn listed_entry(ip: Seq<char>, port: u16) -> Value {
    Value::Dict(
        seq![
            (encode_utf8("ip"@), Value::Bytes(encode_utf8(ip))),
            (encode_utf8("port"@), Value::Int(port as i64)),
        ],
    )
}

/// The list by which the list form names peers.
pub open spec fn listed_entries(peers: Seq<(Seq<char>, u16)>) -> Seq<Value> {
    Seq::new(peers.len(), |i: int| listed_entry(peers[i].0, peers[i].1))
}

/// A peer that a dictionary names is read back.
proof fn lemma_listed_peer_is_read_back(ip: Seq<char>, port: u16)
    ensures
        listed_peer(listed_entry(ip, port)) == Some((ip, port)),
{
    let (k, l) = (encode_utf8("ip"@), encode_utf8("port"@));
    assert(k != l) by {
        reveal_strlit("ip");
        reveal_strlit("port");
        encode_utf8_decode_utf8("ip"@);
        encode_utf8_decode_utf8("port"@);
        assert("ip"@.len() != "port"@.len());
    }
    encode_utf8_decode_utf8(ip);
    encode_utf8_valid_utf8(ip);
    let first = (k, Value::Bytes(encode_utf8(ip)));
    let second = (l, Value::Int(port as i64));
    let entries = seq![first, second];
    assert(entries.last() == second);
    assert(entries.drop_last() =~= seq![first]);
    assert(seq![first].last() == first);
    assert(lookup(entries, l) == Some(second.1));
    assert(lookup(entries, k) == lookup(seq![first], k));
    assert(lookup(seq![first], k) == Some(first.1));
}

/// Every peer that the list form names is read back, in order.
pub proof fn lemma_listed_peers_are_read_back(peers: Seq<(Seq<char>, u16)>)
    ensures
        listed_peers(listed_entries(peers)) == peers,
    decreases peers.len(),
{
    if peers.len() == 0 {
        assert(listed_peers(listed_entries(peers)) =~= peers);
    } else {
        let front = peers.drop_last();
        let last = peers.last();
        lemma_listed_peers_are_read_back(front);
        lemma_listed_peer_is_read_back(last.0, last.1);
        assert(listed_entries(peers).drop_last() =~= listed_entries(front));
        assert(front.push(last) =~= peers);
    }
}

/// What a tracker says of its peers in list form is what the client reads, from
/// the first byte of the response to the last.
pub proof fn lemma_listed_answer_is_read_back(
    header: Seq<u8>,
    v: Value,
    peers: Seq<(Seq<char>, u16)>,
)
    requires
        forall|i: int|
            !#[trigger] crate::http::terminator_at(header + header_terminator().take(3), i),
        v.text_field(encode_utf8("failure reason"@)) is None,
        v.field(encode_utf8("peers"@)) == Some(Value::List(listed_entries(peers))),
    ensures
        response_answer(header + header_terminator() + encode(v)) == Ok::<Answer, ErrorKind>(
            Answer::Listed(peers),
        ),
{
    lemma_decode_of_encode(v);
    lemma_body_follows_header(header, encode(v));
    lemma_listed_peers_are_read_back(peers);
}

} // verus!
