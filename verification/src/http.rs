//! The frame of an HTTP response.
use vstd::prelude::*;
use vstd::slice::slice_subrange;

verus! {

/// The ASCII code of carriage return.
pub const CR: u8 = 0x0d;

/// The ASCII code of line feed.
pub const LF: u8 = 0x0a;

/// What ends the header of a response: a line end and an empty line.
pub open spec fn header_terminator() -> Seq<u8> {
    seq![CR, LF, CR, LF]
}

/// Whether the terminator of the header stands at a place.
pub open spec fn terminator_at(response: Seq<u8>, i: int) -> bool {
    0 <= i && i + 4 <= response.len() && response.subrange(i, i + 4) == header_terminator()
}

/// Whether the terminator stands at a place, and at none before it.
pub open spec fn first_terminator_at(response: Seq<u8>, i: int) -> bool {
    terminator_at(response, i) && forall|j: int| j < i ==> !#[trigger] terminator_at(response, j)
}

/// What follows the first terminator, if there is one.
pub open spec fn http_body(response: Seq<u8>) -> Option<Seq<u8>> {
    if exists|i: int| first_terminator_at(response, i) {
        let i = choose|i: int| first_terminator_at(response, i);
        Some(response.skip(i + 4))
    } else {
        None
    }
}

/// What stands behind has no part in a terminator.
proof fn lemma_terminator_in_front(front: Seq<u8>, back: Seq<u8>, i: int)
    requires
        0 <= i,
        i + 4 <= front.len(),
    ensures
        terminator_at(front + back, i) <==> terminator_at(front, i),
{
    assert((front + back).subrange(i, i + 4) =~= front.subrange(i, i + 4));
}

/// The body of a response is what the server sent after the header, if the
/// header as such does not contain the terminator, nor forms one with the start
/// of the terminator that follows it.
pub proof fn lemma_body_follows_header(header: Seq<u8>, body: Seq<u8>)
    requires
        forall|i: int| !#[trigger] terminator_at(header + header_terminator().take(3), i),
    ensures
        http_body(header + header_terminator() + body) == Some(body),
{
    let response = header + header_terminator() + body;
    let n = header.len() as int;
    let front = header + header_terminator().take(3);
    let back = header_terminator().skip(3) + body;
    assert(header_terminator().len() == 4);
    assert(response =~= front + back);
    assert(response.subrange(n, n + 4) =~= header_terminator());
    assert forall|j: int| j < n implies !#[trigger] terminator_at(response, j) by {
        if 0 <= j {
            lemma_terminator_in_front(front, back, j);
            assert(!terminator_at(front, j));
        }
    }
    assert(first_terminator_at(response, n));
    let i = choose|i: int| first_terminator_at(response, i);
    if i < n {
        assert(terminator_at(response, i));
    } else if n < i {
        assert(terminator_at(response, n));
    }
    assert(response.skip(n + 4) =~= body);
}

/// A response has no body exactly if the terminator stands nowhere in it.
pub proof fn lemma_body_needs_terminator(response: Seq<u8>)
    ensures
        http_body(response) is Some <==> exists|i: int| #[trigger] terminator_at(response, i),
{
    if exists|i: int| #[trigger] terminator_at(response, i) {
        let i = choose|i: int| #[trigger] terminator_at(response, i);
        lemma_first_terminator(response, i);
    }
    if exists|i: int| first_terminator_at(response, i) {
        let i = choose|i: int| first_terminator_at(response, i);
        assert(terminator_at(response, i));
    }
}

/// Where there is a terminator, there is a first one.
proof fn lemma_first_terminator(response: Seq<u8>, i: int)
    requires
        terminator_at(response, i),
    ensures
        exists|k: int| first_terminator_at(response, k),
    decreases i,
{
    if exists|j: int| j < i && #[trigger] terminator_at(response, j) {
        let j = choose|j: int| j < i && #[trigger] terminator_at(response, j);
        lemma_first_terminator(response, j);
    } else {
        assert(first_terminator_at(response, i));
    }
}

/// The body of a response: the bytes after the first empty line.
pub fn split_http_body(response: &[u8]) -> (body: Option<&[u8]>)
    ensures
        body is Some <==> http_body(response@) is Some,
        body matches Some(b) ==> http_body(response@) == Some(b@),
{
    let mut i: usize = 0;
    while response.len() - i >= 4
        invariant
            i <= response.len(),
            forall|j: int| j < i ==> !#[trigger] terminator_at(response@, j),
        decreases response.len() - i,
    {
        let ghost window = response@.subrange(i as int, i + 4);
        if response[i] == CR && response[i + 1] == LF && response[i + 2] == CR && response[i + 3]
            == LF {
            proof {
                assert(window =~= header_terminator());
                assert(first_terminator_at(response@, i as int));
                let k = choose|k: int| first_terminator_at(response@, k);
                assert(terminator_at(response@, k));
                assert(k == i);
                assert(response@.subrange(i + 4, response@.len() as int) =~= response@.skip(i + 4));
            }
            return Some(slice_subrange(response, i + 4, response.len()));
        }
        proof {
            assert(window[0] == response@[i as int] && window[1] == response@[i + 1] && window[2]
                == response@[i + 2] && window[3] == response@[i + 3]);
        }
        i = i + 1;
    }
    assert forall|k: int| !first_terminator_at(response@, k) by {
        if first_terminator_at(response@, k) {
            assert(terminator_at(response@, k));
        }
    }
    None
}

} // verus!
