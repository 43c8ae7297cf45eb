//! Percent-encoding, in which binary fields stand in an announce request.
use crate::text::chars_of;
use vstd::prelude::*;

verus! {

/// Whether a byte stands for itself in a request: an ASCII letter or digit, or
/// one of `-`, `_`, `.` and `~`.
pub open spec fn is_unreserved(b: u8) -> bool {
    ||| 'A' as u8 <= b <= 'Z' as u8
    ||| 'a' as u8 <= b <= 'z' as u8
    ||| '0' as u8 <= b <= '9' as u8
    ||| b == '-' as u8
    ||| b == '_' as u8
    ||| b == '.' as u8
    ||| b == '~' as u8
}

/// The upper-case hexadecimal digit for a number below sixteen.
pub open spec fn hex_char(n: int) -> char {
    if n < 10 {
        ('0' as int + n) as char
    } else {
        ('A' as int + (n - 10)) as char
    }
}

/// How one byte is written: as itself, or as `%` and two hexadecimal digits.
pub open spec fn percent_byte(b: u8) -> Seq<char> {
    if is_unreserved(b) {
        seq![b as char]
    } else {
        seq!['%', hex_char(b as int / 16), hex_char(b as int % 16)]
    }
}

/// How bytes are written, one after the other.
pub open spec fn percent_encode(bytes: Seq<u8>) -> Seq<char>
    decreases bytes.len(),
{
    if bytes.len() == 0 {
        seq![]
    } else {
        percent_byte(bytes[0]) + percent_encode(bytes.skip(1))
    }
}

/// The number that an upper-case hexadecimal digit stands for.
pub open spec fn hex_value(c: char) -> Option<int> {
    if '0' <= c <= '9' {
        Some(c as int - '0' as int)
    } else if 'A' <= c <= 'F' {
        Some(c as int - 'A' as int + 10)
    } else {
        None
    }
}

/// The bytes that a percent-encoded text stands for, if it is one.
pub open spec fn percent_decode(text: Seq<char>) -> Option<Seq<u8>>
    decreases text.len(),
{
    if text.len() == 0 {
        Some(seq![])
    } else if text[0] == '%' {
        if text.len() < 3 {
            None
        } else {
            match (hex_value(text[1]), hex_value(text[2]), percent_decode(text.skip(3))) {
                (Some(high), Some(low), Some(rest)) => Some(
                    seq![(high * 16 + low) as u8] + rest,
                ),
                _ => None,
            }
        }
    } else if text[0] as int <= u8::MAX && is_unreserved(text[0] as u8) {
        match percent_decode(text.skip(1)) {
            Some(rest) => Some(seq![text[0] as u8] + rest),
            None => None,
        }
    } else {
        None
    }
}

/// Fields that are encoded one after the other are encoded as one.
pub proof fn lemma_percent_encode_concat(a: Seq<u8>, b: Seq<u8>)
    ensures
        percent_encode(a + b) == percent_encode(a) + percent_encode(b),
    decreases a.len(),
{
    if a.len() == 0 {
        assert(a + b =~= b);
        assert(percent_encode(a) + percent_encode(b) =~= percent_encode(b));
    } else {
        lemma_percent_encode_concat(a.skip(1), b);
        assert((a + b).skip(1) =~= a.skip(1) + b);
        assert(percent_encode(a + b) =~= percent_encode(a) + percent_encode(b));
    }
}

/// Encoding loses nothing: the bytes can be read back from the text.
pub proof fn lemma_percent_decode_of_encode(bytes: Seq<u8>)
    ensures
        percent_decode(percent_encode(bytes)) == Some(bytes),
    decreases bytes.len(),
{
    if bytes.len() == 0 {
        assert(bytes =~= seq![]);
    } else {
        let b = bytes[0];
        let rest = bytes.skip(1);
        let text = percent_encode(bytes);
        lemma_percent_decode_of_encode(rest);
        assert(text.skip(percent_byte(b).len() as int) =~= percent_encode(rest));
        assert(seq![b] + rest =~= bytes);
        if is_unreserved(b) {
            assert(text[0] == b as char);
        } else {
            let (high, low) = (b as int / 16, b as int % 16);
            assert(text[1] == hex_char(high));
            assert(text[2] == hex_char(low));
            assert(hex_value(text[1]) == Some(high));
            assert(hex_value(text[2]) == Some(low));
            assert(high * 16 + low == b);
        }
    }
}

/// An encoded field holds nothing but unreserved characters and `%`, so it
/// cannot be taken for a part of the request around it.
pub proof fn lemma_percent_alphabet(bytes: Seq<u8>)
    ensures
        forall|i: int|
            0 <= i < percent_encode(bytes).len() ==> {
                let c = #[trigger] percent_encode(bytes)[i];
                c == '%' || (c as int <= u8::MAX && is_unreserved(c as u8))
            },
    decreases bytes.len(),
{
    if bytes.len() > 0 {
        let head = percent_byte(bytes[0]);
        let tail = percent_encode(bytes.skip(1));
        lemma_percent_alphabet(bytes.skip(1));
        assert forall|i: int| 0 <= i < percent_encode(bytes).len() implies {
            let c = #[trigger] percent_encode(bytes)[i];
            c == '%' || (c as int <= u8::MAX && is_unreserved(c as u8))
        } by {
            if i >= head.len() {
                assert(percent_encode(bytes)[i] == tail[i - head.len()]);
            } else {
                assert(percent_encode(bytes)[i] == head[i]);
            }
        }
    }
}

/// Unreserved bytes pass through unchanged.
pub proof fn lemma_unreserved_pass_through(bytes: Seq<u8>)
    requires
        forall|i: int| 0 <= i < bytes.len() ==> is_unreserved(#[trigger] bytes[i]),
    ensures
        percent_encode(bytes) == chars_of(bytes),
    decreases bytes.len(),
{
    if bytes.len() > 0 {
        lemma_unreserved_pass_through(bytes.skip(1));
        assert(chars_of(bytes) =~= seq![bytes[0] as char] + chars_of(bytes.skip(1)));
    } else {
        assert(chars_of(bytes) =~= seq![]);
    }
}

/// The upper-case hexadecimal digit for a number below sixteen.
fn hex_digit(n: u8) -> (c: char)
    requires
        n < 16,
    ensures
        c == hex_char(n as int),
{
    if n < 10 {
        (0x30 + n) as char
    } else {
        (0x41 + (n - 10)) as char
    }
}

/// Whether a byte stands for itself in a request.
fn unreserved(b: u8) -> (yes: bool)
    ensures
        yes == is_unreserved(b),
{
    (0x41 <= b && b <= 0x5a) || (0x61 <= b && b <= 0x7a) || (0x30 <= b && b <= 0x39) || b == 0x2d
        || b == 0x5f || b == 0x2e || b == 0x7e
}

/// Appends bytes in percent-encoding: unreserved bytes as themselves, every
/// other byte as `%` and two hexadecimal digits.
pub fn percent_encode_into(out: &mut String, bytes: &[u8])
    ensures
        final(out)@ == old(out)@ + percent_encode(bytes@),
{
    let ghost start = out@;
    let mut i: usize = 0;
    assert(percent_encode(bytes@.take(0)) =~= seq![]);
    while i < bytes.len()
        invariant
            i <= bytes.len(),
            out@ == start + percent_encode(bytes@.take(i as int)),
        decreases bytes.len() - i,
    {
        let b: u8 = bytes[i];
        if unreserved(b) {
            out.push(b as char);
        } else {
            out.push('%');
            out.push(hex_digit(b / 16));
            out.push(hex_digit(b % 16));
        }
        proof {
            assert(seq![b].skip(1) =~= seq![]);
            assert(percent_encode(seq![b].skip(1)) =~= seq![]);
            assert(percent_encode(seq![b]) =~= percent_byte(b));
            assert(bytes@.take(i + 1) =~= bytes@.take(i as int) + seq![b]);
            lemma_percent_encode_concat(bytes@.take(i as int), seq![b]);
            assert(out@ =~= start + percent_encode(bytes@.take(i + 1)));
        }
        i = i + 1;
    }
    assert(bytes@.take(i as int) =~= bytes@);
}

} // verus!
