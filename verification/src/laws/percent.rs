//! Laws of percent-encoding.
use crate::percent::{
    lemma_percent_decode_of_encode, lemma_percent_encode_concat, percent_byte, percent_decode,
    percent_encode, percent_encode_into,
};
use vstd::prelude::*;

verus! {

/// Whether a character is an ASCII letter or digit, or one of four marks.
pub open spec fn plain(c: char) -> bool {
    'A' <= c <= 'Z' || 'a' <= c <= 'z' || '0' <= c <= '9' || "-_.~"@.contains(c)
}

/// What is written of one byte: itself if it is plain, and otherwise a percent
/// sign and its two digits to the base of sixteen, in upper case.
pub proof fn lemma_percent_of_one(b: u8)
    ensures
        plain(b as char) ==> percent_encode(seq![b]) == seq![b as char],
        !plain(b as char) ==> percent_encode(seq![b]) == seq![
            '%',
            "0123456789ABCDEF"@[b as int / 16],
            "0123456789ABCDEF"@[b as int % 16],
        ],
{
    reveal_strlit("-_.~");
    reveal_strlit("0123456789ABCDEF");
    let marks = "-_.~"@;
    assert(marks.contains(b as char) <==> (b as char == '-' || b as char == '_' || b as char == '.'
        || b as char == '~')) by {
        assert(marks[0] == '-' && marks[1] == '_' && marks[2] == '.' && marks[3] == '~');
    }
    assert(seq![b].skip(1) =~= seq![]);
    assert(percent_encode(seq![b].skip(1)) =~= seq![]);
    assert(percent_encode(seq![b]) =~= percent_byte(b));
}

/// Appending bytes keeps what was there; what it adds is what it adds of the
/// bytes in parts, however they are divided, and the bytes can be read back
/// from it.
pub proof fn law_percent_encode_into(out: &mut String, bytes: &[u8], a: Seq<u8>, b: Seq<u8>)
    requires
        call_ensures(percent_encode_into, (out, bytes), ()),
        bytes@ == a + b,
    ensures
        final(out)@ == old(out)@ + (percent_encode(a) + percent_encode(b)),
        percent_decode(final(out)@.skip(old(out)@.len() as int)) == Some(bytes@),
{
    lemma_percent_encode_concat(a, b);
    lemma_percent_decode_of_encode(bytes@);
    assert(final(out)@.skip(old(out)@.len() as int) =~= percent_encode(bytes@));
}

/// Appending one byte adds the byte if it is plain, and otherwise a percent sign
/// and its two digits to the base of sixteen.
pub proof fn law_percent_encode_one(out: &mut String, bytes: &[u8], b: u8)
    requires
        call_ensures(percent_encode_into, (out, bytes), ()),
        bytes@ == seq![b],
    ensures
        plain(b as char) ==> final(out)@ == old(out)@.push(b as char),
        !plain(b as char) ==> final(out)@ == old(out)@ + seq![
            '%',
            "0123456789ABCDEF"@[b as int / 16],
            "0123456789ABCDEF"@[b as int % 16],
        ],
{
    lemma_percent_of_one(b);
}

/// All bytes can be appended to every string.
pub proof fn law_bytes_are_taken(out: &mut String, bytes: &[u8])
    ensures
        call_requires(percent_encode_into, (out, bytes)),
{
}

} // verus!
