//! Laws of the frame of a response.
use crate::http::{
    first_terminator_at, header_terminator, http_body, split_http_body, terminator_at,
};
use vstd::prelude::*;

verus! {

/// Whether a line end and an empty line stand at a place: the codes 13, 10, 13
/// and 10.
pub open spec fn blank_line_at(response: Seq<u8>, i: int) -> bool {
    &&& 0 <= i && i + 4 <= response.len()
    &&& response[i] == 13 && response[i + 1] == 10 && response[i + 2] == 13 && response[i + 3] == 10
}

/// A terminator is a line end and an empty line.
pub proof fn lemma_terminator(response: Seq<u8>, i: int)
    ensures
        terminator_at(response, i) <==> blank_line_at(response, i),
{
    if 0 <= i && i + 4 <= response.len() {
        let window = response.subrange(i, i + 4);
        assert(window[0] == response[i] && window[1] == response[i + 1] && window[2] == response[i
            + 2] && window[3] == response[i + 3]);
        if blank_line_at(response, i) {
            assert(window =~= header_terminator());
        }
    }
}

/// The body is what follows the first blank line.
pub proof fn lemma_body_at(response: Seq<u8>, i: int)
    requires
        blank_line_at(response, i),
        forall|j: int| 0 <= j < i ==> !#[trigger] blank_line_at(response, j),
    ensures
        http_body(response) == Some(response.skip(i + 4)),
{
    assert forall|j: int| j < i implies !#[trigger] terminator_at(response, j) by {
        lemma_terminator(response, j);
        assert(!blank_line_at(response, j));
    }
    lemma_terminator(response, i);
    assert(first_terminator_at(response, i));
    let k = choose|k: int| first_terminator_at(response, k);
    if k < i {
        assert(terminator_at(response, k));
    } else if i < k {
        assert(terminator_at(response, i));
    }
}

/// There is no body without a blank line.
pub proof fn lemma_no_body(response: Seq<u8>)
    requires
        forall|j: int| !#[trigger] blank_line_at(response, j),
    ensures
        http_body(response) is None,
{
    assert forall|k: int| !first_terminator_at(response, k) by {
        lemma_terminator(response, k);
        assert(!blank_line_at(response, k));
    }
}

/// The body is what follows the first blank line, wherever it stands.
pub proof fn law_body_follows_blank_line(response: &[u8], body: Option<&[u8]>, i: int)
    requires
        call_ensures(split_http_body, (response,), body),
        blank_line_at(response@, i),
        forall|j: int| 0 <= j < i ==> !#[trigger] blank_line_at(response@, j),
    ensures
        body matches Some(b) && b@ == response@.skip(i + 4),
{
    lemma_body_at(response@, i);
}

/// There is no body without a blank line.
pub proof fn law_no_body_without_blank_line(response: &[u8], body: Option<&[u8]>)
    requires
        call_ensures(split_http_body, (response,), body),
        forall|j: int| !#[trigger] blank_line_at(response@, j),
    ensures
        body is None,
{
    lemma_no_body(response@);
}

/// Every response is taken.
pub proof fn law_responses_are_taken(response: &[u8])
    ensures
        call_requires(split_http_body, (response,)),
{
}

} // verus!
