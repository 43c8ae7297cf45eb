//! Character sequences, and what is taken from the standard library about them.
use vstd::prelude::*;
use vstd::utf8::{decode_utf8, encode_utf8, encode_utf8_decode_utf8, valid_utf8};

verus! {

/// The error of `std::str::from_utf8`; nothing is read from it.
#[verifier::external_type_specification]
#[verifier::external_body]
pub struct ExUtf8Error(std::str::Utf8Error);

/// `std::str::from_utf8`: it succeeds on valid UTF-8 and on nothing else, and
/// the string it returns is made of the very bytes it was given.
pub assume_specification[ std::str::from_utf8 ](v: &[u8]) -> (r: Result<
    &str,
    std::str::Utf8Error,
>)
    ensures
        r is Ok <==> valid_utf8(v@),
        r matches Ok(s) ==> encode_utf8(s@) == v@,
;

/// `String::push`: the string afterwards is the string before, with the
/// character appended.
pub assume_specification[ String::push ](s: &mut String, c: char)
    ensures
        final(s)@ == old(s)@.push(c),
;

/// The characters of which each byte is the code, one for one.
pub open spec fn chars_of(bytes: Seq<u8>) -> Seq<char> {
    Seq::new(bytes.len(), |i: int| bytes[i] as char)
}

/// The text that bytes are the UTF-8 encoding of, if they are.
pub open spec fn utf8_text(bytes: Seq<u8>) -> Option<Seq<char>> {
    if valid_utf8(bytes) {
        Some(decode_utf8(bytes))
    } else {
        None
    }
}

/// Reads bytes as UTF-8 text.
pub fn utf8_str(bytes: &[u8]) -> (text: Option<&str>)
    ensures
        text is Some <==> utf8_text(bytes@) is Some,
        text matches Some(s) ==> utf8_text(bytes@) == Some(s@),
{
    match std::str::from_utf8(bytes) {
        Ok(s) => {
            proof {
                encode_utf8_decode_utf8(s@);
            }
            Some(s)
        },
        Err(_) => None,
    }
}

/// The number of characters before the first occurrence of `c`, or of all
/// characters if there is none.
pub open spec fn find(s: Seq<char>, c: char) -> int
    decreases s.len(),
{
    if s.len() == 0 || s[0] == c {
        0
    } else {
        1 + find(s.skip(1), c)
    }
}

/// What stands before and after the first occurrence of `c`.
pub open spec fn split_at_first(s: Seq<char>, c: char) -> Option<(Seq<char>, Seq<char>)> {
    if s.contains(c) {
        Some((s.take(find(s, c)), s.skip(find(s, c) + 1)))
    } else {
        None
    }
}

/// What follows a prefix, if the text has it.
pub open spec fn after_prefix(s: Seq<char>, prefix: Seq<char>) -> Option<Seq<char>> {
    if prefix.is_prefix_of(s) {
        Some(s.skip(prefix.len() as int))
    } else {
        None
    }
}

/// The text without the occurrences of `c` that it starts with.
pub open spec fn without_leading(s: Seq<char>, c: char) -> Seq<char>
    decreases s.len(),
{
    if s.len() > 0 && s[0] == c {
        without_leading(s.skip(1), c)
    } else {
        s
    }
}

/// `find` counts up to the first occurrence.
pub proof fn lemma_find(s: Seq<char>, c: char)
    ensures
        0 <= find(s, c) <= s.len(),
        forall|i: int| 0 <= i < find(s, c) ==> s[i] != c,
        find(s, c) < s.len() ==> s[find(s, c)] == c,
        s.contains(c) <==> find(s, c) < s.len(),
    decreases s.len(),
{
    if s.len() > 0 && s[0] != c {
        let rest = s.skip(1);
        lemma_find(rest, c);
        assert forall|i: int| 0 <= i < find(s, c) implies s[i] != c by {
            if i > 0 {
                assert(rest[i - 1] != c);
            }
        }
        if find(s, c) < s.len() {
            assert(rest[find(rest, c)] == s[find(s, c)]);
        }
    }
    if s.contains(c) {
        let i = choose|i: int| 0 <= i < s.len() && s[i] == c;
        assert(!(i < find(s, c)));
    }
}

/// `find` is the only place that has `c` and no `c` before it.
proof fn lemma_find_is(s: Seq<char>, c: char, at: int)
    requires
        0 <= at <= s.len(),
        forall|i: int| 0 <= i < at ==> s[i] != c,
        at < s.len() ==> s[at] == c,
    ensures
        find(s, c) == at,
{
    lemma_find(s, c);
    if find(s, c) < at {
        assert(s[find(s, c)] != c);
    }
}

/// The characters of a string.
pub(crate) fn characters(s: &str) -> (v: Vec<char>)
    ensures
        v@ == s@,
{
    let mut v: Vec<char> = Vec::new();
    for c in it: s.chars()
        invariant
            it.seq() == s@,
            v@ == it.seq().take(it.index()),
    {
        v.push(c);
    }
    v
}

/// The place of the first `c` in a string, or the number of its characters.
fn first_place(v: &Vec<char>, c: char) -> (at: usize)
    ensures
        at == find(v@, c),
        at <= v.len(),
        at < v.len() <==> v@.contains(c),
{
    let mut at: usize = 0;
    while at < v.len() && v[at] != c
        invariant
            at <= v.len(),
            forall|i: int| 0 <= i < at ==> v@[i] != c,
        decreases v.len() - at,
    {
        at = at + 1;
    }
    proof {
        lemma_find_is(v@, c, at as int);
        lemma_find(v@, c);
    }
    at
}

/// Divides a string at the first `c`, which goes to neither part.
pub fn split_once(s: &str, c: char) -> (parts: Option<(&str, &str)>)
    ensures
        parts is Some <==> split_at_first(s@, c) is Some,
        parts matches Some((a, b)) ==> split_at_first(s@, c) == Some((a@, b@)),
{
    let v = characters(s);
    let at = first_place(&v, c);
    if at < v.len() {
        let a = s.substring_char(0, at);
        let b = s.substring_char(at + 1, v.len());
        assert(a@ =~= s@.take(at as int));
        assert(b@ =~= s@.skip(at + 1));
        Some((a, b))
    } else {
        None
    }
}

/// Whether a character occurs in a string.
pub fn has_char(s: &str, c: char) -> (yes: bool)
    ensures
        yes == s@.contains(c),
{
    let v = characters(s);
    first_place(&v, c) < v.len()
}

/// Takes a prefix off a string that has it.
pub fn strip_prefix<'a>(s: &'a str, prefix: &str) -> (rest: Option<&'a str>)
    ensures
        rest is Some <==> after_prefix(s@, prefix@) is Some,
        rest matches Some(r) ==> after_prefix(s@, prefix@) == Some(r@),
{
    let v = characters(s);
    let p = characters(prefix);
    if p.len() > v.len() {
        return None;
    }
    let mut i: usize = 0;
    while i < p.len()
        invariant
            i <= p.len() <= v.len(),
            v@ == s@,
            p@ == prefix@,
            forall|j: int| 0 <= j < i ==> v@[j] == p@[j],
        decreases p.len() - i,
    {
        if v[i] != p[i] {
            assert(s@.take(p.len() as int)[i as int] == v@[i as int]);
            return None;
        }
        i = i + 1;
    }
    assert(s@.take(p.len() as int) =~= prefix@);
    let rest = s.substring_char(p.len(), v.len());
    assert(rest@ =~= s@.skip(p.len() as int));
    Some(rest)
}

/// Takes every `c` off the start of a string.
pub fn trim_start<'a>(s: &'a str, c: char) -> (rest: &'a str)
    ensures
        rest@ == without_leading(s@, c),
{
    let v = characters(s);
    let mut i: usize = 0;
    assert(v@.skip(0) =~= v@);
    while i < v.len() && v[i] == c
        invariant
            i <= v.len(),
            without_leading(v@, c) == without_leading(v@.skip(i as int), c),
        decreases v.len() - i,
    {
        assert(v@.skip(i as int).skip(1) =~= v@.skip(i + 1));
        i = i + 1;
    }
    let rest = s.substring_char(i, v.len());
    assert(rest@ =~= v@.skip(i as int));
    rest
}

} // verus!
