//! Laws of the tracker's answer: which peers are read from it, and when it is
//! refused.
use super::bencode::{lemma_found_if_there, lemma_last_entry_counts};
use super::http::{blank_line_at, lemma_body_at, lemma_no_body};
use super::text::lemma_utf8_text;
use crate::bencode::grammar::{encode, lemma_decode_of_encode, SyntaxError, Value};
use crate::bencode::reader::parse;
use crate::bencode::value::{lookup, Bencode};
use crate::error::TrackerError;
use crate::peers::{
    compact_peer, compact_peers, lemma_listed_peers_concat, listed_peer, listed_peers, listed_view,
    parse_peers, parse_response, peers_of, resolve, resolved, Endpoint, IpAddress, ListedPeer, Peers,
};
use vstd::prelude::*;
use vstd::utf8::encode_utf8;

verus! {

/// Whether a value is a dictionary in which the last entry under a name has the
/// given value.
pub open spec fn holds(v: Value, name: Seq<char>, w: Value) -> bool {
    v matches Value::Dict(entries) && exists|i: int|
        #![trigger entries[i]]
        {
            &&& 0 <= i < entries.len()
            &&& entries[i] == (encode_utf8(name), w)
            &&& forall|j: int| i < j < entries.len() ==> #[trigger] entries[j].0 != encode_utf8(name)
        }
}

/// Whether a value has no entry under a name.
pub open spec fn lacks(v: Value, name: Seq<char>) -> bool {
    v matches Value::Dict(entries) ==> forall|i: int|
        0 <= i < entries.len() ==> #[trigger] entries[i].0 != encode_utf8(name)
}

/// What is found under a name is the value of the last entry under it.
pub proof fn lemma_field(v: Value, name: Seq<char>, w: Value)
    ensures
        holds(v, name, w) <==> v.field(encode_utf8(name)) == Some(w),
        lacks(v, name) <==> v.field(encode_utf8(name)) is None,
{
    let key = encode_utf8(name);
    if let Value::Dict(entries) = v {
        lemma_found_if_there(entries, key);
        if holds(v, name, w) {
            let i = choose|i: int|
                #![trigger entries[i]]
                {
                    &&& 0 <= i < entries.len()
                    &&& entries[i] == (key, w)
                    &&& forall|j: int| i < j < entries.len() ==> #[trigger] entries[j].0 != key
                };
            lemma_last_entry_counts(entries, key, i);
        }
        if lookup(entries, key) == Some(w) {
            let i = lemma_found_at(entries, key);
            assert(entries[i] == (key, w));
        }
    }
}

/// What is found stands at some entry, and no later one has the key.
proof fn lemma_found_at(entries: Seq<(Seq<u8>, Value)>, key: Seq<u8>) -> (i: int)
    requires
        lookup(entries, key) is Some,
    ensures
        0 <= i < entries.len(),
        entries[i] == (key, lookup(entries, key)->0),
        forall|j: int| i < j < entries.len() ==> #[trigger] entries[j].0 != key,
    decreases entries.len(),
{
    if entries.last().0 == key {
        entries.len() - 1
    } else {
        let front = entries.drop_last();
        let i = lemma_found_at(front, key);
        assert(front[i] == entries[i]);
        assert forall|j: int| i < j < entries.len() implies #[trigger] entries[j].0 != key by {
            if j < front.len() {
                assert(front[j] == entries[j]);
            }
        }
        i
    }
}

/// Whether an answer gives no reason in text why the tracker refuses.
pub open spec fn unrefused(v: Value) -> bool {
    forall|reason: Seq<char>|
        !#[trigger] holds(v, "failure reason"@, Value::Bytes(encode_utf8(reason)))
}

/// The text under a name is the one of which the bytes there are the encoding.
proof fn lemma_text_field(v: Value, name: Seq<char>, t: Seq<char>)
    ensures
        v.text_field(encode_utf8(name)) == Some(t) <==> holds(
            v,
            name,
            Value::Bytes(encode_utf8(t)),
        ),
{
    let key = encode_utf8(name);
    lemma_field(v, name, Value::Bytes(encode_utf8(t)));
    lemma_utf8_text(encode_utf8(t), t);
    if let Some(Value::Bytes(b)) = v.field(key) {
        lemma_utf8_text(b, t);
    }
}

/// An answer without a reason is not taken for a refusal.
proof fn lemma_unrefused(v: Value)
    requires
        unrefused(v),
    ensures
        v.text_field(encode_utf8("failure reason"@)) is None,
{
    if let Some(t) = v.text_field(encode_utf8("failure reason"@)) {
        lemma_text_field(v, "failure reason"@, t);
        assert(holds(v, "failure reason"@, Value::Bytes(encode_utf8(t))));
    }
}

/// A refusal is surfaced with the words of the tracker, whatever else the answer
/// holds.
pub proof fn law_refusal(
    value: &Bencode,
    result: Result<Peers, TrackerError>,
    reason: Seq<char>,
)
    requires
        call_ensures(peers_of, (value,), result),
        holds(value@, "failure reason"@, Value::Bytes(encode_utf8(reason))),
    ensures
        result matches Err(TrackerError::Failure(text)) && text@ == reason,
{
    lemma_text_field(value@, "failure reason"@, reason);
}

/// Each six bytes of the compact form are a peer: four bytes of its address and
/// two of its port, the more significant first; as many peers as there are
/// whole sixes.
pub proof fn law_compact(
    value: &Bencode,
    result: Result<Peers, TrackerError>,
    b: Seq<u8>,
    i: int,
)
    requires
        call_ensures(peers_of, (value,), result),
        unrefused(value@),
        holds(value@, "peers"@, Value::Bytes(b)),
    ensures
        result matches Ok(Peers::Compact(peers)) && {
            &&& 6 * peers@.len() <= b.len() < 6 * peers@.len() + 6
            &&& 0 <= i < peers@.len() ==> {
                &&& peers@[i].ip == IpAddress::V4(b[6 * i], b[6 * i + 1], b[6 * i + 2], b[6 * i + 3])
                &&& peers@[i].port == b[6 * i + 4] * 256 + b[6 * i + 5]
            }
        },
{
    lemma_unrefused(value@);
    lemma_field(value@, "peers"@, Value::Bytes(b));
    let peers = compact_peers(b);
    if 0 <= i < peers.len() {
        let c = b.subrange(6 * i, 6 * i + 6);
        assert(peers[i] == compact_peer(c));
        assert(c[0] == b[6 * i] && c[1] == b[6 * i + 1] && c[2] == b[6 * i + 2] && c[3] == b[6 * i
            + 3] && c[4] == b[6 * i + 4] && c[5] == b[6 * i + 5]);
    }
}

/// Whether an item of a list names a peer: under `ip` the encoding of a text,
/// and under `port` a number in the range of ports.
pub open spec fn names(item: Value, ip: Seq<char>, port: u16) -> bool {
    holds(item, "ip"@, Value::Bytes(encode_utf8(ip))) && holds(
        item,
        "port"@,
        Value::Int(port as i64),
    )
}

/// A peer is read from an item exactly if the item names it.
pub proof fn lemma_listed_peer(item: Value, ip: Seq<char>, port: u16)
    ensures
        listed_peer(item) == Some((ip, port)) <==> names(item, ip, port),
{
    lemma_text_field(item, "ip"@, ip);
    lemma_field(item, "port"@, Value::Int(port as i64));
    if let Some((t, p)) = listed_peer(item) {
        lemma_text_field(item, "ip"@, t);
        lemma_field(item, "port"@, Value::Int(p as i64));
    }
}

/// From an empty list no peer is read. One more item at the back adds the peer
/// that it names, at the back, and nothing if it names none.
pub proof fn lemma_listed_one_by_one(items: Seq<Value>, item: Value, ip: Seq<char>, port: u16)
    ensures
        listed_peers(seq![]).len() == 0,
        names(item, ip, port) ==> listed_peers(items.push(item)) == listed_peers(items).push(
            (ip, port),
        ),
        (forall|t: Seq<char>, p: u16| !#[trigger] names(item, t, p)) ==> listed_peers(
            items.push(item),
        ) == listed_peers(items),
{
    lemma_listed_peer(item, ip, port);
    assert(items.push(item).drop_last() =~= items);
    if let Some((t, p)) = listed_peer(item) {
        lemma_listed_peer(item, t, p);
        assert(names(item, t, p));
    }
}

/// The list form gives the peers that its items name.
pub proof fn law_listed(
    value: &Bencode,
    result: Result<Peers, TrackerError>,
    items: Seq<Value>,
    i: int,
)
    requires
        call_ensures(peers_of, (value,), result),
        unrefused(value@),
        holds(value@, "peers"@, Value::List(items)),
    ensures
        result matches Ok(Peers::Listed(peers)) && {
            &&& peers@.len() == listed_peers(items).len()
            &&& 0 <= i < peers@.len() ==> {
                &&& peers@[i].ip@ == listed_peers(items)[i].0
                &&& peers@[i].port == listed_peers(items)[i].1
            }
        },
{
    lemma_unrefused(value@);
    lemma_field(value@, "peers"@, Value::List(items));
    if let Ok(Peers::Listed(peers)) = result {
        assert(listed_view(peers@) == listed_peers(items));
        if 0 <= i < peers@.len() {
            assert(listed_view(peers@)[i] == peers@[i]@);
        }
    }
}

/// The peer that an item of a list names is read from it, right behind the peers
/// of the items before it, whatever follows.
pub proof fn law_listed_in_order(
    value: &Bencode,
    result: Result<Peers, TrackerError>,
    a: Seq<Value>,
    item: Value,
    b: Seq<Value>,
    ip: Seq<char>,
    port: u16,
)
    requires
        call_ensures(peers_of, (value,), result),
        unrefused(value@),
        holds(value@, "peers"@, Value::List(a.push(item) + b)),
        names(item, ip, port),
    ensures
        result matches Ok(Peers::Listed(peers)) && {
            let k = listed_peers(a).len() as int;
            &&& k < peers@.len()
            &&& peers@[k].ip@ == ip
            &&& peers@[k].port == port
        },
{
    let k = listed_peers(a).len() as int;
    lemma_listed_peers_concat(a.push(item), b);
    lemma_listed_one_by_one(a, item, ip, port);
    law_listed(value, result, a.push(item) + b, k);
}

/// An answer without peers is refused as such, and so is one of which the peers
/// are neither bytes nor a list.
pub proof fn law_no_peers(value: &Bencode, result: Result<Peers, TrackerError>, w: Value)
    requires
        call_ensures(peers_of, (value,), result),
        unrefused(value@),
    ensures
        lacks(value@, "peers"@) ==> result == Err::<Peers, TrackerError>(
            TrackerError::MissingPeers,
        ),
        holds(value@, "peers"@, w) && (w is Int || w is Dict) ==> result == Err::<
            Peers,
            TrackerError,
        >(TrackerError::UnrecognizedPeers),
{
    lemma_unrefused(value@);
    lemma_field(value@, "peers"@, w);
}

/// Whether two results say the same.
pub open spec fn same_result(
    a: Result<Peers, TrackerError>,
    b: Result<Peers, TrackerError>,
) -> bool {
    match (a, b) {
        (Ok(Peers::Compact(p)), Ok(Peers::Compact(q))) => p@ == q@,
        (Ok(Peers::Listed(p)), Ok(Peers::Listed(q))) => p@.len() == q@.len() && forall|i: int|
            0 <= i < p@.len() ==> #[trigger] p@[i].ip@ == q@[i].ip@ && p@[i].port == q@[i].port,
        (Err(TrackerError::Failure(s)), Err(TrackerError::Failure(t))) => s@ == t@,
        (Err(TrackerError::Bencode(e)), Err(TrackerError::Bencode(f))) => e == f,
        (Err(TrackerError::UnsupportedScheme), Err(TrackerError::UnsupportedScheme)) => true,
        (Err(TrackerError::MalformedResponse), Err(TrackerError::MalformedResponse)) => true,
        (Err(TrackerError::MissingPeers), Err(TrackerError::MissingPeers)) => true,
        (Err(TrackerError::UnrecognizedPeers), Err(TrackerError::UnrecognizedPeers)) => true,
        _ => false,
    }
}

/// Lists of peers that show the same hold the same.
proof fn lemma_same_listed(p: Seq<ListedPeer>, q: Seq<ListedPeer>)
    requires
        listed_view(p) == listed_view(q),
    ensures
        p.len() == q.len(),
        forall|i: int|
            0 <= i < p.len() ==> #[trigger] p[i].ip@ == q[i].ip@ && p[i].port == q[i].port,
{
    assert(p.len() == listed_view(p).len() && q.len() == listed_view(q).len());
    assert forall|i: int| 0 <= i < p.len() implies #[trigger] p[i].ip@ == q[i].ip@ && p[i].port
        == q[i].port by {
        assert(listed_view(p)[i] == p[i]@);
        assert(listed_view(q)[i] == q[i]@);
    }
}

/// What is read from a body is what the value of which it is the notation says.
pub proof fn law_body_is_its_value(
    body: &[u8],
    result: Result<Peers, TrackerError>,
    value: &Bencode,
    answer: Result<Peers, TrackerError>,
)
    requires
        call_ensures(parse_peers, (body,), result),
        call_ensures(peers_of, (value,), answer),
        body@ == encode(value@),
    ensures
        same_result(result, answer),
{
    lemma_decode_of_encode(value@);
    if let (Ok(Peers::Listed(p)), Ok(Peers::Listed(q))) = (result, answer) {
        lemma_same_listed(p@, q@);
    }
}

/// A body that is not the notation of a value is refused, for the reason that
/// the reader gives.
pub proof fn law_body_needs_value(
    body: &[u8],
    result: Result<Peers, TrackerError>,
    read: Result<Bencode, SyntaxError>,
)
    requires
        call_ensures(parse_peers, (body,), result),
        call_ensures(parse, (body,), read),
    ensures
        read matches Err(e) ==> result == Err::<Peers, TrackerError>(TrackerError::Bencode(e)),
        (forall|v: Value| #[trigger] encode(v) != body@) ==> (result matches Err(
            TrackerError::Bencode(_),
        )),
{
}

/// What is read from a response is what is read from the bytes behind its first
/// blank line.
pub proof fn law_response_is_its_body(
    response: &[u8],
    result: Result<Peers, TrackerError>,
    body: &[u8],
    answer: Result<Peers, TrackerError>,
    i: int,
)
    requires
        call_ensures(parse_response, (response,), result),
        call_ensures(parse_peers, (body,), answer),
        blank_line_at(response@, i),
        forall|j: int| 0 <= j < i ==> !#[trigger] blank_line_at(response@, j),
        body@ == response@.skip(i + 4),
    ensures
        same_result(result, answer),
{
    lemma_body_at(response@, i);
    if let (Ok(Peers::Listed(p)), Ok(Peers::Listed(q))) = (result, answer) {
        lemma_same_listed(p@, q@);
    }
}

/// A response without a blank line is refused.
pub proof fn law_response_needs_blank_line(
    response: &[u8],
    result: Result<Peers, TrackerError>,
)
    requires
        call_ensures(parse_response, (response,), result),
        forall|j: int| !#[trigger] blank_line_at(response@, j),
    ensures
        result == Err::<Peers, TrackerError>(TrackerError::MalformedResponse),
{
    lemma_no_body(response@);
}

/// Of an empty list nothing is resolved. One more peer at the back is added at
/// the back, with its port and the address that its text was read as, and not at
/// all if its text was read as none.
pub proof fn lemma_resolved_one_by_one(
    listed: Seq<(Seq<char>, u16)>,
    ips: Seq<Option<IpAddress>>,
    text: Seq<char>,
    port: u16,
    ip: IpAddress,
)
    ensures
        resolved(seq![], seq![]).len() == 0,
        resolved(listed.push((text, port)), ips.push(Some(ip))) == resolved(listed, ips).push(
            Endpoint { ip, port },
        ),
        resolved(listed.push((text, port)), ips.push(None)) == resolved(listed, ips),
{
    assert(listed.push((text, port)).drop_last() =~= listed);
    assert(ips.push(Some(ip)).drop_last() =~= ips);
    assert(ips.push(None).drop_last() =~= ips);
}

/// The peers of a list are joined with their addresses, each with the one at the
/// same place.
pub proof fn law_resolve(
    listed: &Vec<ListedPeer>,
    ips: &Vec<Option<IpAddress>>,
    peers: Vec<Endpoint>,
)
    requires
        call_ensures(resolve, (listed, ips), peers),
    ensures
        peers@ == resolved(
            Seq::new(listed@.len(), |i: int| (listed@[i].ip@, listed@[i].port)),
            ips@,
        ),
{
    assert(listed_view(listed@) =~= Seq::new(
        listed@.len(),
        |i: int| (listed@[i].ip@, listed@[i].port),
    ));
}

/// Where every address could be read, all peers are there, each at its place
/// with its address and its port.
pub proof fn law_all_are_resolved(
    listed: &Vec<ListedPeer>,
    ips: &Vec<Option<IpAddress>>,
    peers: Vec<Endpoint>,
    i: int,
)
    requires
        call_ensures(resolve, (listed, ips), peers),
        listed@.len() == ips@.len(),
        forall|j: int| 0 <= j < ips@.len() ==> #[trigger] ips@[j] is Some,
    ensures
        peers@.len() == listed@.len(),
        0 <= i < listed@.len() ==> ips@[i] == Some(peers@[i].ip) && peers@[i].port
            == listed@[i].port,
{
    lemma_all_are_resolved(listed_view(listed@), ips@, i);
}

/// Where every address could be read, all peers of a list are resolved.
proof fn lemma_all_are_resolved(
    listed: Seq<(Seq<char>, u16)>,
    ips: Seq<Option<IpAddress>>,
    i: int,
)
    requires
        listed.len() == ips.len(),
        forall|j: int| 0 <= j < ips.len() ==> #[trigger] ips[j] is Some,
    ensures
        resolved(listed, ips).len() == listed.len(),
        0 <= i < listed.len() ==> ips[i] == Some(resolved(listed, ips)[i].ip) && resolved(
            listed,
            ips,
        )[i].port == listed[i].1,
    decreases listed.len(),
{
    if listed.len() > 0 {
        let (front, front_ips) = (listed.drop_last(), ips.drop_last());
        assert(ips[ips.len() - 1] is Some);
        assert forall|j: int| 0 <= j < front_ips.len() implies #[trigger] front_ips[j] is Some by {
            assert(front_ips[j] == ips[j]);
        }
        lemma_all_are_resolved(front, front_ips, i);
        if 0 <= i < front.len() {
            assert(front_ips[i] == ips[i] && front[i] == listed[i]);
        }
    }
}

/// Every answer, body and response is taken, and every list with as many
/// addresses as it has peers.
pub proof fn law_answers_are_taken(
    value: &Bencode,
    bytes: &[u8],
    listed: &Vec<ListedPeer>,
    ips: &Vec<Option<IpAddress>>,
)
    ensures
        call_requires(peers_of, (value,)),
        call_requires(parse_peers, (bytes,)),
        call_requires(parse_response, (bytes,)),
        listed@.len() == ips@.len() ==> call_requires(resolve, (listed, ips)),
{
}

} // verus!
