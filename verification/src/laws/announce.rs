//! Laws of the announce request: which URLs lead where, and what is sent there.
use super::decimal::{lemma_decimal_denotes, lemma_value_is_number, number, numeric};
use super::text::{lemma_after_prefix, lemma_split_at_first, lemma_without_leading};
use crate::announce::{
    announce_request, codes_of, digits_only, host_and_port, port_number, target_of, without_plus,
    AnnounceRequest, Target,
};
use crate::decimal::{all_digits, decimal, is_digit, value};
use crate::error::TrackerError;
use crate::percent::percent_encode;
use crate::text::{after_prefix, chars_of, without_leading};
use vstd::prelude::*;

verus! {

/// Whether a text denotes a port: by decimal digits, at least one and with any
/// number of leading zeros, that a plus sign may precede.
pub open spec fn denotes_port(t: Seq<char>, n: u16) -> bool {
    ||| t.len() > 0 && numeric(t) && number(t) == n
    ||| t.len() > 1 && t[0] == '+' && numeric(t.skip(1)) && number(t.skip(1)) == n
}

/// What is read of digits is what they denote by their places.
proof fn lemma_codes_denote(t: Seq<char>)
    requires
        numeric(t),
    ensures
        digits_only(t),
        value(codes_of(t)) == number(t),
{
    let s = codes_of(t);
    assert forall|i: int| 0 <= i < s.len() implies is_digit(#[trigger] s[i]) by {
        assert('0' <= t[i] <= '9');
    }
    assert(all_digits(s));
    lemma_value_is_number(s);
    assert forall|i: int| 0 <= i < t.len() implies #[trigger] chars_of(s)[i] == t[i] by {
        assert('0' <= t[i] <= '9');
    }
    assert(chars_of(s) =~= t);
}

/// A port is read from a text exactly if the text denotes it.
pub proof fn lemma_port_number(t: Seq<char>, n: u16)
    ensures
        denotes_port(t, n) <==> port_number(t) == Some(n),
{
    if t.len() > 0 && numeric(t) {
        assert('0' <= t[0] <= '9');
        lemma_codes_denote(t);
    }
    if t.len() > 1 && t[0] == '+' && numeric(t.skip(1)) {
        lemma_codes_denote(t.skip(1));
    }
    if port_number(t) == Some(n) {
        let d = without_plus(t);
        assert(numeric(d)) by {
            assert forall|i: int| 0 <= i < d.len() implies '0' <= #[trigger] d[i] <= '9' by {}
        }
        lemma_codes_denote(d);
    }
}

/// A URL of an `http://` tracker: a host, a port after a colon, and a path after
/// a slash, the last two if there are any.
pub open spec fn url_of(host: Seq<char>, port: Option<Seq<char>>, path: Option<Seq<char>>) -> Seq<
    char,
> {
    "http://"@ + (host + (match port {
        Some(p) => seq![':'] + p,
        None => seq![],
    }) + (match path {
        Some(p) => seq!['/'] + p,
        None => seq![],
    }))
}

/// Whether a character stands nowhere in a text.
pub open spec fn free_of(t: Seq<char>, c: char) -> bool {
    forall|i: int| 0 <= i < t.len() ==> #[trigger] t[i] != c
}

/// What stands before the path is divided at the colon.
proof fn lemma_authority(host: Seq<char>, port: Option<Seq<char>>)
    requires
        free_of(host, ':'),
    ensures
        port matches Some(p) ==> host_and_port(host + (seq![':'] + p)) == (
            host,
            match port_number(p) {
                Some(n) => n,
                None => 80u16,
            },
        ),
        host_and_port(host) == (host, 80u16),
{
    lemma_split_at_first(host, ':', seq![]);
    if let Some(p) = port {
        lemma_split_at_first(host, ':', p);
        assert(host + (seq![':'] + p) =~= host + seq![':'] + p);
    }
}

/// A URL leads to the host, the port and the path that it is made of; to the
/// port 80 if it names no port or none that can be read, and to the root if it
/// names no path.
pub proof fn lemma_target(
    host: Seq<char>,
    port: Option<Seq<char>>,
    path: Option<Seq<char>>,
    n: u16,
)
    requires
        free_of(host, ':'),
        free_of(host, '/'),
        port matches Some(p) ==> free_of(p, '/'),
    ensures
        ({
            let t = target_of(url_of(host, port, path));
            &&& t is Some
            &&& t->0.host == host
            &&& port is None ==> t->0.port == 80
            &&& port matches Some(p) ==> denotes_port(p, n) ==> t->0.port == n
            &&& port matches Some(p) ==> (forall|m: u16| !denotes_port(p, m)) ==> t->0.port == 80
            &&& path matches Some(p) ==> t->0.path == p
            &&& path is None ==> t->0.path == seq!['/']
        }),
{
    let authority = host + (match port {
        Some(p) => seq![':'] + p,
        None => seq![],
    });
    let rest = authority + (match path {
        Some(p) => seq!['/'] + p,
        None => seq![],
    });
    lemma_after_prefix(url_of(host, port, path), "http://"@, rest);
    lemma_authority(host, port);
    if port is None {
        assert(authority =~= host);
    }
    assert forall|i: int| 0 <= i < authority.len() implies #[trigger] authority[i] != '/' by {
        if i < host.len() {
            assert(host[i] != '/');
        } else if let Some(p) = port {
            if i > host.len() {
                assert(p[i - host.len() - 1] != '/');
            }
        }
    }
    match path {
        Some(p) => {
            lemma_split_at_first(authority, '/', p);
            assert(rest =~= authority + seq!['/'] + p);
        },
        None => {
            lemma_split_at_first(authority, '/', seq![]);
            assert(rest =~= authority);
            reveal_strlit("/");
            assert("/"@ =~= seq!['/']);
        },
    }
    if let Some(p) = port {
        lemma_port_number(p, n);
        if port_number(p) is Some {
            lemma_port_number(p, port_number(p)->0);
        }
    }
}

/// A request goes to the host and the port of its URL, whatever they are: every
/// port is read back from its digits.
pub proof fn law_request_goes_to_url(
    url: &str,
    info_hash: &[u8; 20],
    peer_id: &[u8; 20],
    port: u16,
    left: u64,
    request: Result<AnnounceRequest, TrackerError>,
    host: Seq<char>,
    host_port: Option<Seq<char>>,
    path: Option<Seq<char>>,
    n: u16,
)
    requires
        call_ensures(announce_request, (url, info_hash, peer_id, port, left), request),
        free_of(host, ':'),
        free_of(host, '/'),
        host_port matches Some(p) ==> free_of(p, '/'),
        url@ == url_of(host, host_port, path),
    ensures
        request matches Ok(r) && {
            &&& r.host@ == host
            &&& host_port is None ==> r.port == 80
            &&& host_port matches Some(p) ==> denotes_port(p, n) ==> r.port == n
            &&& host_port matches Some(p) ==> (forall|m: u16| !denotes_port(p, m)) ==> r.port == 80
        },
{
    lemma_target(host, host_port, path, n);
}

/// The digits of a port denote it, so a URL that names a port leads to it.
pub proof fn law_port_is_read_back(
    url: &str,
    info_hash: &[u8; 20],
    peer_id: &[u8; 20],
    port: u16,
    left: u64,
    request: Result<AnnounceRequest, TrackerError>,
    host: Seq<char>,
    n: u16,
    path: Seq<char>,
)
    requires
        call_ensures(announce_request, (url, info_hash, peer_id, port, left), request),
        free_of(host, ':'),
        free_of(host, '/'),
        url@ == "http://"@ + (host + (seq![':'] + chars_of(decimal(n as nat))) + (seq!['/']
            + path)),
    ensures
        request matches Ok(r) && r.host@ == host && r.port == n,
        target_of(url@) == Some(Target { host, port: n, path }),
{
    let digits = chars_of(decimal(n as nat));
    lemma_decimal_denotes(n as nat);
    assert forall|i: int| 0 <= i < digits.len() implies #[trigger] digits[i] != '/' by {
        assert('0' <= digits[i] <= '9');
    }
    assert(denotes_port(digits, n));
    lemma_target(host, Some(digits), Some(path), n);
}

/// A URL that is not an `http://` one is refused, and no other.
pub proof fn law_other_schemes_are_refused(
    url: &str,
    info_hash: &[u8; 20],
    peer_id: &[u8; 20],
    port: u16,
    left: u64,
    request: Result<AnnounceRequest, TrackerError>,
    tail: Seq<char>,
)
    requires
        call_ensures(announce_request, (url, info_hash, peer_id, port, left), request),
    ensures
        (forall|t: Seq<char>| url@ != #[trigger] ("http://"@ + t)) ==> request == Err::<
            AnnounceRequest,
            TrackerError,
        >(TrackerError::UnsupportedScheme),
        url@ == "http://"@ + tail ==> request is Ok,
{
    lemma_after_prefix(url@, "http://"@, tail);
    if let Some(r) = after_prefix(url@, "http://"@) {
        lemma_after_prefix(url@, "http://"@, r);
        assert(url@ == "http://"@ + r);
    }
}

/// What is sent: the path of the URL, with one slash before it however many it
/// has, the fields of the announcement behind an ampersand if the path has a
/// query and as its query otherwise, and the host.
pub proof fn law_request_text(
    url: &str,
    info_hash: &[u8; 20],
    peer_id: &[u8; 20],
    port: u16,
    left: u64,
    request: Result<AnnounceRequest, TrackerError>,
    host: Seq<char>,
    host_port: Option<Seq<char>>,
    slashes: Seq<char>,
    path: Seq<char>,
)
    requires
        call_ensures(announce_request, (url, info_hash, peer_id, port, left), request),
        free_of(host, ':'),
        free_of(host, '/'),
        host_port matches Some(p) ==> free_of(p, '/'),
        forall|i: int| 0 <= i < slashes.len() ==> slashes[i] == '/',
        path.len() > 0 ==> path[0] != '/',
        url@ == url_of(host, host_port, Some(slashes + path)) || (url@ == url_of(
            host,
            host_port,
            None,
        ) && path.len() == 0),
    ensures
        request matches Ok(r) && r.text@ == "GET "@ + (seq!['/'] + path + (if free_of(path, '?') {
            seq!['?']
        } else {
            seq!['&']
        }) + ("info_hash="@ + percent_encode(info_hash@) + "&peer_id="@ + percent_encode(peer_id@)
            + "&port="@ + chars_of(decimal(port as nat)) + "&uploaded=0&downloaded=0&left="@
            + chars_of(decimal(left as nat)) + "&compact=1&event=started"@))
            + " HTTP/1.0\r\nHost: "@ + host
            + "\r\nUser-Agent: enxame/0.1\r\nAccept: */*\r\nConnection: close\r\n\r\n"@,
{
    let whole = if url@ == url_of(host, host_port, Some(slashes + path)) {
        lemma_target(host, host_port, Some(slashes + path), 80);
        lemma_without_leading(slashes, '/', path);
        slashes + path
    } else {
        lemma_target(host, host_port, None, 80);
        lemma_without_leading(seq!['/'], '/', path);
        assert(seq!['/'] + path =~= seq!['/']);
        seq!['/']
    };
    assert(target_of(url@)->0.path == whole);
    assert(without_leading(whole, '/') == path);
    if whole.contains('?') {
        let i = choose|i: int| 0 <= i < whole.len() && whole[i] == '?';
        if url@ == url_of(host, host_port, Some(slashes + path)) {
            if i < slashes.len() {
                assert(slashes[i] == '/');
            }
            assert(path[i - slashes.len()] == '?');
        }
        assert(!free_of(path, '?'));
    }
    if !free_of(path, '?') {
        let i = choose|i: int| 0 <= i < path.len() && path[i] == '?';
        assert(whole[slashes.len() + i] == '?');
    }
}

/// Every URL and every announcement is taken.
pub proof fn law_announcements_are_taken(
    url: &str,
    info_hash: &[u8; 20],
    peer_id: &[u8; 20],
    port: u16,
    left: u64,
)
    ensures
        call_requires(announce_request, (url, info_hash, peer_id, port, left)),
{
}

} // verus!
