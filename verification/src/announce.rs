//! The announce request: where it goes and what it says ([BEP-3]).
//!
//! Only `http://` trackers are spoken to, by one HTTP/1.0 request without
//! keep-alive, so that the end of the stream ends the answer.
//!
//! [BEP-3]: https://www.bittorrent.org/beps/bep_0003.html
use crate::decimal::{
    decimal, is_digit, lemma_decimal_is_canonical, lemma_value_of_decimal, push_u64, value,
};
use crate::error::{ErrorKind, TrackerError};
use crate::percent::{
    lemma_percent_alphabet, lemma_percent_decode_of_encode, percent_encode, percent_encode_into,
};
use crate::text::{
    after_prefix, characters, chars_of, has_char, split_at_first, split_once, strip_prefix,
    trim_start, without_leading,
};
use vstd::prelude::*;

verus! {

/// The port of a tracker that names none, or none that can be read.
pub const DEFAULT_PORT: u16 = 80;

/// A tracker's address and path, as its announce URL gives them.
pub struct Target {
    pub host: Seq<char>,
    pub port: u16,
    pub path: Seq<char>,
}

/// What a client announces about itself.
pub struct Announcement {
    pub info_hash: Seq<u8>,
    pub peer_id: Seq<u8>,
    pub port: u16,
    pub left: u64,
}

/// The codes of characters, one for one.
pub open spec fn codes_of(s: Seq<char>) -> Seq<u8> {
    Seq::new(s.len(), |i: int| s[i] as u8)
}

/// The text without one leading plus sign.
pub open spec fn without_plus(s: Seq<char>) -> Seq<char> {
    if s.len() > 0 && s[0] == '+' {
        s.skip(1)
    } else {
        s
    }
}

/// Whether every character is a decimal digit.
pub open spec fn digits_only(s: Seq<char>) -> bool {
    forall|i: int| 0 <= i < s.len() ==> '0' <= #[trigger] s[i] <= '9'
}

/// The number that a port is written as: decimal digits, at least one, after an
/// optional plus sign, within the range of ports.
pub open spec fn port_number(s: Seq<char>) -> Option<u16> {
    let d = without_plus(s);
    if d.len() > 0 && digits_only(d) && value(codes_of(d)) <= u16::MAX {
        Some(value(codes_of(d)) as u16)
    } else {
        None
    }
}

/// A tracker's host and port, from what stands before the path.
pub open spec fn host_and_port(authority: Seq<char>) -> (Seq<char>, u16) {
    match split_at_first(authority, ':') {
        Some((host, port)) => (
            host,
            match port_number(port) {
                Some(p) => p,
                None => DEFAULT_PORT,
            },
        ),
        None => (authority, DEFAULT_PORT),
    }
}

/// Where an announce URL points to; nowhere if it is not an `http://` URL.
pub open spec fn target_of(url: Seq<char>) -> Option<Target> {
    match after_prefix(url, "http://"@) {
        Some(rest) => {
            let (authority, path) = match split_at_first(rest, '/') {
                Some((a, p)) => (a, p),
                None => (rest, "/"@),
            };
            let (host, port) = host_and_port(authority);
            Some(Target { host, port, path })
        },
        None => None,
    }
}

/// The path and query of the request: the tracker's path with one slash before
/// it, then the fields of the announcement, behind the query that the path
/// already has or as its query.
pub open spec fn query_of(path: Seq<char>, a: Announcement) -> Seq<char> {
    seq!['/'] + without_leading(path, '/') + (if path.contains('?') {
        seq!['&']
    } else {
        seq!['?']
    }) + fields_of(a)
}

/// The fields of an announcement.
pub open spec fn fields_of(a: Announcement) -> Seq<char> {
    "info_hash="@ + percent_encode(a.info_hash) + "&peer_id="@ + percent_encode(a.peer_id)
        + "&port="@ + chars_of(decimal(a.port as nat)) + "&uploaded=0&downloaded=0&left="@
        + chars_of(decimal(a.left as nat)) + "&compact=1&event=started"@
}

/// The whole request.
pub open spec fn request_of(t: Target, a: Announcement) -> Seq<char> {
    "GET "@ + query_of(t.path, a) + " HTTP/1.0\r\nHost: "@ + t.host
        + "\r\nUser-Agent: enxame/0.1\r\nAccept: */*\r\nConnection: close\r\n\r\n"@
}

/// Whether a text holds no ampersand.
spec fn no_ampersand(s: Seq<char>) -> bool {
    !s.contains('&')
}

/// A text up to the first ampersand is the same however it is divided.
proof fn lemma_up_to_ampersand(a: Seq<char>, x: Seq<char>, b: Seq<char>, y: Seq<char>)
    requires
        no_ampersand(a),
        no_ampersand(b),
        x.len() > 0 && x[0] == '&',
        y.len() > 0 && y[0] == '&',
        a + x == b + y,
    ensures
        a == b,
        x == y,
{
    if a.len() < b.len() {
        assert((a + x)[a.len() as int] == '&');
        assert(b[a.len() as int] == '&');
    }
    if b.len() < a.len() {
        assert((b + y)[b.len() as int] == '&');
        assert(a[b.len() as int] == '&');
    }
    assert(a =~= (a + x).take(a.len() as int));
    assert(b =~= (b + y).take(b.len() as int));
    assert(x =~= (a + x).skip(a.len() as int));
    assert(y =~= (b + y).skip(b.len() as int));
}

/// Two continuations of the same text are the same if the wholes are.
proof fn lemma_same_continuation(p: Seq<char>, x: Seq<char>, y: Seq<char>)
    requires
        p + x == p + y,
    ensures
        x == y,
{
    assert(x =~= (p + x).skip(p.len() as int));
    assert(y =~= (p + y).skip(p.len() as int));
}

/// An encoded field holds no ampersand.
proof fn lemma_field_has_no_ampersand(bytes: Seq<u8>)
    ensures
        no_ampersand(percent_encode(bytes)),
{
    lemma_percent_alphabet(bytes);
    let text = percent_encode(bytes);
    if text.contains('&') {
        let i = choose|i: int| 0 <= i < text.len() && text[i] == '&';
        assert(text[i] == '&');
    }
}

/// A number in decimal notation holds no ampersand, and tells the number.
proof fn lemma_number_field(m: nat, n: nat)
    ensures
        no_ampersand(chars_of(decimal(m))),
        chars_of(decimal(m)) == chars_of(decimal(n)) ==> m == n,
{
    lemma_decimal_is_canonical(m);
    lemma_decimal_is_canonical(n);
    lemma_value_of_decimal(m);
    lemma_value_of_decimal(n);
    let (s, t) = (decimal(m), decimal(n));
    assert forall|i: int| 0 <= i < s.len() implies chars_of(s)[i] != '&' by {
        assert(is_digit(s[i]));
    }
    if chars_of(s) == chars_of(t) {
        assert(s.len() == chars_of(s).len() && t.len() == chars_of(t).len());
        assert forall|i: int| 0 <= i < s.len() implies s[i] == t[i] by {
            assert(is_digit(s[i]) && is_digit(t[i]));
            assert(chars_of(s)[i] == chars_of(t)[i]);
        }
        assert(s =~= t);
    }
}

/// A field that ends at a given mark, and what follows the mark, are the same
/// if the wholes are.
proof fn lemma_field_and_mark(
    a: Seq<char>,
    b: Seq<char>,
    mark: Seq<char>,
    x: Seq<char>,
    y: Seq<char>,
)
    requires
        no_ampersand(a),
        no_ampersand(b),
        mark.len() > 0 && mark[0] == '&',
        a + (mark + x) == b + (mark + y),
    ensures
        a == b,
        x == y,
{
    lemma_up_to_ampersand(a, mark + x, b, mark + y);
    lemma_same_continuation(mark, x, y);
}

/// What stands in a request before the info-hash.
spec fn before_fields(t: Target) -> Seq<char> {
    "GET "@ + (seq!['/'] + without_leading(t.path, '/') + (if t.path.contains('?') {
        seq!['&']
    } else {
        seq!['?']
    })) + "info_hash="@
}

/// What stands in a request after the announcement.
spec fn after_fields(t: Target) -> Seq<char> {
    " HTTP/1.0\r\nHost: "@ + t.host
        + "\r\nUser-Agent: enxame/0.1\r\nAccept: */*\r\nConnection: close\r\n\r\n"@
}

/// Fields and marks, each followed by the rest.
spec fn nested(f: Seq<Seq<char>>, k: Seq<Seq<char>>, back: Seq<char>) -> Seq<char>
    recommends
        f.len() == 4,
        k.len() == 4,
{
    f[0] + (k[0] + (f[1] + (k[1] + (f[2] + (k[2] + (f[3] + (k[3] + back)))))))
}

/// The marks between the fields of a request.
spec fn marks() -> Seq<Seq<char>> {
    seq![
        "&peer_id="@,
        "&port="@,
        "&uploaded=0&downloaded=0&left="@,
        "&compact=1&event=started"@,
    ]
}

/// The fields of a request as they are written.
spec fn written_fields(a: Announcement) -> Seq<Seq<char>> {
    seq![
        percent_encode(a.info_hash),
        percent_encode(a.peer_id),
        chars_of(decimal(a.port as nat)),
        chars_of(decimal(a.left as nat)),
    ]
}

/// A request is made of its fields and marks.
proof fn lemma_request_is_nested(t: Target, a: Announcement)
    ensures
        request_of(t, a) == before_fields(t) + nested(
            written_fields(a),
            marks(),
            after_fields(t),
        ),
{
    let (f, k, back) = (written_fields(a), marks(), after_fields(t));
    let x0 = "info_hash="@;
    let x1 = x0 + f[0];
    let x2 = x1 + k[0];
    let x3 = x2 + f[1];
    let x4 = x3 + k[1];
    let x5 = x4 + f[2];
    let x6 = x5 + k[2];
    let x7 = x6 + f[3];
    let y7 = k[3] + back;
    let y6 = f[3] + y7;
    let y5 = k[2] + y6;
    let y4 = f[2] + y5;
    let y3 = k[1] + y4;
    let y2 = f[1] + y3;
    let y1 = k[0] + y2;
    lemma_regroup(x7, k[3], back);
    lemma_regroup(x6, f[3], y7);
    lemma_regroup(x5, k[2], y6);
    lemma_regroup(x4, f[2], y5);
    lemma_regroup(x3, k[1], y4);
    lemma_regroup(x2, f[1], y3);
    lemma_regroup(x1, k[0], y2);
    lemma_regroup(x0, f[0], y1);
    assert(fields_of(a) == x7 + k[3]);
    assert(fields_of(a) + back == x0 + nested(f, k, back));

    let before = seq!['/'] + without_leading(t.path, '/') + (if t.path.contains('?') {
        seq!['&']
    } else {
        seq!['?']
    });
    let line = "GET "@ + query_of(t.path, a);
    let host = " HTTP/1.0\r\nHost: "@;
    let tail = "\r\nUser-Agent: enxame/0.1\r\nAccept: */*\r\nConnection: close\r\n\r\n"@;
    lemma_regroup(line, host, t.host);
    lemma_regroup(line, host + t.host, tail);
    assert(request_of(t, a) == line + back);
    lemma_regroup("GET "@, before, fields_of(a));
    lemma_regroup("GET "@ + before, fields_of(a), back);
    lemma_regroup("GET "@ + before, x0, nested(f, k, back));
}

/// How texts are grouped when they are joined does not matter.
proof fn lemma_regroup(a: Seq<char>, b: Seq<char>, c: Seq<char>)
    ensures
        (a + b) + c == a + (b + c),
{
    assert((a + b) + c =~= a + (b + c));
}

/// Fields between the same marks are the same if the wholes are.
proof fn lemma_nested_is_unique(
    f: Seq<Seq<char>>,
    g: Seq<Seq<char>>,
    k: Seq<Seq<char>>,
    back: Seq<char>,
)
    requires
        f.len() == 4 && g.len() == 4 && k.len() == 4,
        forall|i: int| 0 <= i < 4 ==> no_ampersand(#[trigger] f[i]),
        forall|i: int| 0 <= i < 4 ==> no_ampersand(#[trigger] g[i]),
        forall|i: int| 0 <= i < 4 ==> (#[trigger] k[i]).len() > 0 && k[i][0] == '&',
        nested(f, k, back) == nested(g, k, back),
    ensures
        f == g,
{
    let (x3, y3) = (f[3] + (k[3] + back), g[3] + (k[3] + back));
    let (x2, y2) = (f[2] + (k[2] + x3), g[2] + (k[2] + y3));
    let (x1, y1) = (f[1] + (k[1] + x2), g[1] + (k[1] + y2));
    lemma_field_and_mark(f[0], g[0], k[0], x1, y1);
    lemma_field_and_mark(f[1], g[1], k[1], x2, y2);
    lemma_field_and_mark(f[2], g[2], k[2], x3, y3);
    lemma_field_and_mark(f[3], g[3], k[3], back, back);
    assert(f =~= g);
}

/// A tracker learns from a request exactly what was announced: to one target,
/// two different announcements never make the same request.
pub proof fn lemma_request_tells_announcement(t: Target, a: Announcement, b: Announcement)
    requires
        request_of(t, a) == request_of(t, b),
    ensures
        a == b,
{
    let (f, g, k) = (written_fields(a), written_fields(b), marks());
    lemma_request_is_nested(t, a);
    lemma_request_is_nested(t, b);
    lemma_same_continuation(
        before_fields(t),
        nested(f, k, after_fields(t)),
        nested(g, k, after_fields(t)),
    );
    lemma_field_has_no_ampersand(a.info_hash);
    lemma_field_has_no_ampersand(b.info_hash);
    lemma_field_has_no_ampersand(a.peer_id);
    lemma_field_has_no_ampersand(b.peer_id);
    lemma_number_field(a.port as nat, b.port as nat);
    lemma_number_field(b.port as nat, a.port as nat);
    lemma_number_field(a.left as nat, b.left as nat);
    lemma_number_field(b.left as nat, a.left as nat);
    assert forall|i: int| 0 <= i < 4 implies (#[trigger] k[i]).len() > 0 && k[i][0] == '&' by {
        reveal_strlit("&peer_id=");
        reveal_strlit("&port=");
        reveal_strlit("&uploaded=0&downloaded=0&left=");
        reveal_strlit("&compact=1&event=started");
    }
    lemma_nested_is_unique(f, g, k, after_fields(t));
    assert(f[0] == g[0] && f[1] == g[1] && f[2] == g[2] && f[3] == g[3]);
    lemma_percent_decode_of_encode(a.info_hash);
    lemma_percent_decode_of_encode(b.info_hash);
    lemma_percent_decode_of_encode(a.peer_id);
    lemma_percent_decode_of_encode(b.peer_id);
}

/// The path that is asked for starts with one slash, whatever slashes the URL
/// has after its host.
pub proof fn lemma_query_starts_with_one_slash(path: Seq<char>, a: Announcement)
    ensures
        query_of(path, a).len() > 1,
        query_of(path, a)[0] == '/',
        query_of(path, a)[1] != '/',
{
    lemma_leading_is_gone(path, '/');
}

/// What is left without leading occurrences of a character starts otherwise.
proof fn lemma_leading_is_gone(s: Seq<char>, c: char)
    ensures
        without_leading(s, c).len() > 0 ==> without_leading(s, c)[0] != c,
    decreases s.len(),
{
    if s.len() > 0 && s[0] == c {
        lemma_leading_is_gone(s.skip(1), c);
    }
}

/// A request, and the address it is to be sent to.
#[derive(Debug, PartialEq, Eq)]
pub struct AnnounceRequest {
    pub host: String,
    pub port: u16,
    pub text: String,
}

/// Reads a port.
fn parse_port(s: &str) -> (port: Option<u16>)
    ensures
        port == port_number(s@),
{
    let v = characters(s);
    let start: usize = if v.len() > 0 && v[0] == '+' {
        1
    } else {
        0
    };
    let ghost d = without_plus(s@);
    assert(d =~= v@.skip(start as int));
    if start == v.len() {
        return None;
    }
    let mut i: usize = start;
    let mut number: Option<u16> = Some(0);
    assert(codes_of(d.take(0)) =~= seq![]);
    while i < v.len()
        invariant
            start <= i <= v.len(),
            d == v@.skip(start as int),
            d == without_plus(s@),
            digits_only(d.take(i - start)),
            number matches Some(n) ==> n == value(codes_of(d.take(i - start))),
            number is None ==> value(codes_of(d.take(i - start))) > u16::MAX,
        decreases v.len() - i,
    {
        let c: char = v[i];
        let ghost k = i - start;
        assert(d[k] == c);
        if !('0' <= c && c <= '9') {
            return None;
        }
        let digit: u16 = (c as u32 - '0' as u32) as u16;
        proof {
            let (run, longer) = (codes_of(d.take(k)), codes_of(d.take(k + 1)));
            assert(longer =~= run.push(c as u8));
            assert(longer.drop_last() =~= run);
            assert(value(longer) == value(run) * 10 + digit);
            assert forall|j: int| 0 <= j < k + 1 implies '0' <= #[trigger] d.take(k + 1)[j]
                <= '9' by {
                if j < k {
                    assert(d.take(k + 1)[j] == d.take(k)[j]);
                }
            }
        }
        number = match number {
            Some(n) => match n.checked_mul(10) {
                Some(tens) => tens.checked_add(digit),
                None => None,
            },
            None => None,
        };
        i = i + 1;
    }
    assert(d.take(i - start) =~= d);
    number
}

/// Makes the announce request for a tracker, or says that the tracker is not an
/// `http://` one.
pub fn announce_request(
    announce_url: &str,
    info_hash: &[u8; 20],
    peer_id: &[u8; 20],
    port: u16,
    left: u64,
) -> (request: Result<AnnounceRequest, TrackerError>)
    ensures
        request is Ok <==> target_of(announce_url@) is Some,
        request matches Ok(r) ==> {
            let t = target_of(announce_url@)->0;
            let a = Announcement { info_hash: info_hash@, peer_id: peer_id@, port, left };
            &&& r.host@ == t.host
            &&& r.port == t.port
            &&& r.text@ == request_of(t, a)
        },
        request matches Err(e) ==> e@ == ErrorKind::UnsupportedScheme,
{
    let url = match strip_prefix(announce_url, "http://") {
        Some(url) => url,
        None => {
            return Err(TrackerError::UnsupportedScheme);
        },
    };
    let (authority, path) = match split_once(url, '/') {
        Some((authority, path)) => (authority, path),
        None => (url, "/"),
    };
    let (host, host_port) = match split_once(authority, ':') {
        Some((host, p)) => match parse_port(p) {
            Some(number) => (host, number),
            None => (host, DEFAULT_PORT),
        },
        None => (authority, DEFAULT_PORT),
    };

    let mut query = String::new();
    query.push('/');
    query.append(trim_start(path, '/'));
    query.push(
        if has_char(path, '?') {
            '&'
        } else {
            '?'
        },
    );
    let ghost front = query@;
    query.append("info_hash=");
    percent_encode_into(&mut query, info_hash.as_slice());
    query.append("&peer_id=");
    percent_encode_into(&mut query, peer_id.as_slice());
    query.append("&port=");
    push_u64(&mut query, port as u64);
    query.append("&uploaded=0&downloaded=0&left=");
    push_u64(&mut query, left);
    query.append("&compact=1&event=started");
    proof {
        let a = Announcement { info_hash: info_hash@, peer_id: peer_id@, port, left };
        assert(query@ =~= front + fields_of(a));
        assert(query@ =~= query_of(path@, a));
    }

    let mut text = String::new();
    text.append("GET ");
    text.append(query.as_str());
    text.append(" HTTP/1.0\r\nHost: ");
    text.append(host);
    text.append("\r\nUser-Agent: enxame/0.1\r\nAccept: */*\r\nConnection: close\r\n\r\n");
    proof {
        let a = Announcement { info_hash: info_hash@, peer_id: peer_id@, port, left };
        let t = target_of(announce_url@)->0;
        assert(text@ =~= request_of(t, a));
    }
    Ok(AnnounceRequest { host: host.to_owned(), port: host_port, text })
}

} // verus!
