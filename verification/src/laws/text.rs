//! Laws of the operations on strings.
use crate::text::{chars_of, has_char, split_once, strip_prefix, trim_start, utf8_str};
use crate::text::{
    after_prefix, find, lemma_find, split_at_first, utf8_text, without_leading,
};
use vstd::prelude::*;
use vstd::utf8::{
    decode_utf8_encode_utf8, encode_utf8, encode_utf8_decode_utf8, encode_utf8_valid_utf8,
};

verus! {

/// The first occurrence of a character divides a text, wherever it stands.
pub proof fn lemma_split_at_first(a: Seq<char>, c: char, b: Seq<char>)
    requires
        forall|i: int| 0 <= i < a.len() ==> a[i] != c,
    ensures
        split_at_first(a + seq![c] + b, c) == Some((a, b)),
        split_at_first(a, c) is None,
{
    let s = a + seq![c] + b;
    let at = a.len() as int;
    lemma_find(s, c);
    assert(s[at] == c);
    if find(s, c) < at {
        assert(s[find(s, c)] == a[find(s, c)]);
    }
    assert(find(s, c) == at) by {
        if find(s, c) > at {
            assert(s[at] != c);
        }
    }
    assert(s.take(at) =~= a);
    assert(s.skip(at + 1) =~= b);
}

/// Dividing a string at a character gives back the parts that it was joined
/// from, if the first has no such character; and nothing where there is none.
pub proof fn law_split_once(
    s: &str,
    c: char,
    parts: Option<(&str, &str)>,
    a: Seq<char>,
    b: Seq<char>,
)
    requires
        call_ensures(split_once, (s, c), parts),
        forall|i: int| 0 <= i < a.len() ==> a[i] != c,
    ensures
        s@ == a + seq![c] + b ==> (parts matches Some((x, y)) && x@ == a && y@ == b),
        s@ == a ==> parts is None,
{
    lemma_split_at_first(a, c, b);
}

/// A character is found exactly if it stands at some place.
pub proof fn law_has_char(s: &str, c: char, yes: bool)
    requires
        call_ensures(has_char, (s, c), yes),
    ensures
        yes <==> exists|i: int| 0 <= i < s@.len() && s@[i] == c,
{
}

/// A prefix is taken off every string that it starts, and off no other.
pub proof fn law_strip_prefix(s: &str, prefix: &str, rest: Option<&str>, tail: Seq<char>)
    requires
        call_ensures(strip_prefix, (s, prefix), rest),
    ensures
        s@ == prefix@ + tail ==> (rest matches Some(r) && r@ == tail),
        rest matches Some(r) ==> s@ == prefix@ + r@,
{
    lemma_after_prefix(s@, prefix@, tail);
}

/// A prefix is taken off every text that it starts, and off no other.
pub proof fn lemma_after_prefix(s: Seq<char>, prefix: Seq<char>, tail: Seq<char>)
    ensures
        s == prefix + tail ==> after_prefix(s, prefix) == Some(tail),
        after_prefix(s, prefix) matches Some(r) ==> s == prefix + r,
{
    if s == prefix + tail {
        assert(prefix =~= s.take(prefix.len() as int));
        assert(s.skip(prefix.len() as int) =~= tail);
    }
    if after_prefix(s, prefix) is Some {
        assert(s =~= prefix + s.skip(prefix.len() as int));
    }
}

/// Exactly the leading occurrences of a character go.
pub proof fn lemma_without_leading(a: Seq<char>, c: char, b: Seq<char>)
    requires
        forall|i: int| 0 <= i < a.len() ==> a[i] == c,
        b.len() > 0 ==> b[0] != c,
    ensures
        without_leading(a + b, c) == b,
    decreases a.len(),
{
    if a.len() == 0 {
        assert(a + b =~= b);
    } else {
        lemma_without_leading(a.skip(1), c, b);
        assert((a + b).skip(1) =~= a.skip(1) + b);
    }
}

/// Exactly the leading occurrences of a character go.
pub proof fn law_trim_start(s: &str, c: char, rest: &str, a: Seq<char>, b: Seq<char>)
    requires
        call_ensures(trim_start, (s, c), rest),
        s@ == a + b,
        forall|i: int| 0 <= i < a.len() ==> a[i] == c,
        b.len() > 0 ==> b[0] != c,
    ensures
        rest@ == b,
{
    lemma_without_leading(a, c, b);
}

/// Text is read back from its encoding, and from no other bytes.
pub proof fn lemma_utf8_text(bytes: Seq<u8>, t: Seq<char>)
    ensures
        utf8_text(bytes) == Some(t) <==> bytes == encode_utf8(t),
{
    encode_utf8_valid_utf8(t);
    encode_utf8_decode_utf8(t);
    if utf8_text(bytes) == Some(t) {
        decode_utf8_encode_utf8(bytes);
    }
}

/// Text is read back from its encoding; from bytes that encode none, none is.
pub proof fn law_utf8_str(bytes: &[u8], text: Option<&str>, t: Seq<char>)
    requires
        call_ensures(utf8_str, (bytes,), text),
    ensures
        bytes@ == encode_utf8(t) ==> (text matches Some(s) && s@ == t),
        text matches Some(s) ==> encode_utf8(s@) == bytes@,
{
    lemma_utf8_text(bytes@, t);
    if let Some(s) = text {
        lemma_utf8_text(bytes@, s@);
    }
}

/// Each byte gives the character of which it is the code, at its place.
pub proof fn lemma_chars_of(bytes: Seq<u8>)
    ensures
        chars_of(bytes).len() == bytes.len(),
        forall|i: int| 0 <= i < bytes.len() ==> #[trigger] chars_of(bytes)[i] as int == bytes[i],
{
}

/// Every string is taken.
pub proof fn law_strings_are_taken(s: &str, prefix: &str, c: char, bytes: &[u8])
    ensures
        call_requires(split_once, (s, c)),
        call_requires(has_char, (s, c)),
        call_requires(strip_prefix, (s, prefix)),
        call_requires(trim_start, (s, c)),
        call_requires(utf8_str, (bytes,)),
{
}

} // verus!
