//! Laws of bencoded values: how each kind is written down, what is read back,
//! and what is found in a value.
use super::decimal::{lemma_decimal_denotes, number, numeric};
use super::text::lemma_utf8_text;
use crate::bencode::grammar::{
    decode, encode, encode_entries, encode_items, lemma_decode_of_encode, lemma_first_byte,
    lemma_first_value_len, lemma_prefix_free, starts_with_value, SyntaxError, Value,
};
use crate::bencode::reader::{lemma_encode_entries_push, lemma_encode_items_push, parse};
use crate::bencode::value::{entry_values, lookup, Bencode};
use crate::decimal::decimal;
use crate::text::chars_of;
use vstd::prelude::*;
use vstd::utf8::encode_utf8;

verus! {

/// An integer is written as an `i`, a minus sign if it is negative, the digits
/// that denote its size by their places, without a leading zero, and an `e`.
pub proof fn lemma_int_notation(n: i64)
    ensures
        ({
            let t = encode(Value::Int(n));
            let from = if n < 0 { 2int } else { 1int };
            let digits = chars_of(t.subrange(from, t.len() - 1));
            &&& t.len() > from + 1
            &&& t[0] == 'i' as u8
            &&& n < 0 ==> t[1] == '-' as u8
            &&& t.last() == 'e' as u8
            &&& numeric(digits)
            &&& number(digits) == (if n < 0 { -n } else { n as int })
            &&& digits.len() > 1 ==> digits[0] != '0'
        }),
{
    let t = encode(Value::Int(n));
    let from = if n < 0 { 2int } else { 1int };
    let size: nat = if n < 0 { (-n) as nat } else { n as nat };
    lemma_decimal_denotes(size);
    assert(t.subrange(from, t.len() - 1) =~= decimal(size));
}

/// A byte string is written as the digits that denote its length by their
/// places, without a leading zero, a colon, and its bytes.
pub proof fn lemma_bytes_notation(b: Seq<u8>)
    ensures
        ({
            let t = encode(Value::Bytes(b));
            let k = t.len() - b.len() - 1;
            let digits = chars_of(t.take(k));
            &&& k > 0
            &&& numeric(digits)
            &&& number(digits) == b.len()
            &&& k > 1 ==> digits[0] != '0'
            &&& t[k] == ':' as u8
            &&& t.skip(k + 1) == b
        }),
{
    let t = encode(Value::Bytes(b));
    let k = t.len() - b.len() - 1;
    lemma_decimal_denotes(b.len());
    assert(t.take(k) =~= decimal(b.len()));
    assert(t.skip(k + 1) =~= b);
}

/// A list is written as an `l`, its items, and an `e`: the empty list as both
/// letters, and one with another item at the back with that item before the
/// last letter.
pub proof fn lemma_list_notation(items: Seq<Value>, v: Value)
    ensures
        encode(Value::List(seq![])) == seq!['l' as u8, 'e' as u8],
        encode(Value::List(items.push(v))) == encode(Value::List(items)).drop_last() + encode(v)
            + seq!['e' as u8],
{
    lemma_encode_items_push(items, v);
    assert(encode_items(seq![]) =~= seq![]);
    assert(encode(Value::List(seq![])) =~= seq!['l' as u8, 'e' as u8]);
    assert(encode(Value::List(items.push(v))) =~= encode(Value::List(items)).drop_last() + encode(v)
        + seq!['e' as u8]);
}

/// A dictionary is written as a `d`, its entries, and an `e`: the empty one as
/// both letters, and one with another entry at the back with that entry, first
/// the key as a byte string and then the value, before the last letter.
pub proof fn lemma_dict_notation(entries: Seq<(Seq<u8>, Value)>, key: Seq<u8>, v: Value)
    ensures
        encode(Value::Dict(seq![])) == seq!['d' as u8, 'e' as u8],
        encode(Value::Dict(entries.push((key, v)))) == encode(Value::Dict(entries)).drop_last()
            + encode(Value::Bytes(key)) + encode(v) + seq!['e' as u8],
{
    lemma_encode_entries_push(entries, key, v);
    assert(encode_entries(seq![]) =~= seq![]);
    assert(encode(Value::Dict(seq![])) =~= seq!['d' as u8, 'e' as u8]);
    assert(encode(Value::Dict(entries.push((key, v)))) =~= encode(
        Value::Dict(entries),
    ).drop_last() + encode(Value::Bytes(key)) + encode(v) + seq!['e' as u8]);
}

/// A value is read from its notation, whatever it is, and from nothing else.
pub proof fn law_parse(text: &[u8], read: Result<Bencode, SyntaxError>, w: Value)
    requires
        call_ensures(parse, (text,), read),
    ensures
        text@ == encode(w) ==> (read matches Ok(v) && v@ == w),
        read matches Ok(v) ==> encode(v@) == text@,
{
    lemma_decode_of_encode(w);
    if let Ok(v) = read {
        assert(exists|x: Value| encode(x) == text@);
        assert(decode(text@) == Some(v@));
    }
}

/// A text that is not the notation of a value is refused: as empty exactly if it
/// has no bytes; where a notation has more behind it, at the place where it
/// ends; and as malformed only if no notation starts it.
pub proof fn law_parse_refuses(
    text: &[u8],
    read: Result<Bencode, SyntaxError>,
    w: Value,
    rest: Seq<u8>,
)
    requires
        call_ensures(parse, (text,), read),
    ensures
        read matches Err(SyntaxError::Empty) <==> text@.len() == 0,
        text@ == encode(w) + rest && rest.len() > 0 ==> (read matches Err(
            SyntaxError::TrailingBytes(at),
        ) && at == encode(w).len()),
        read matches Err(SyntaxError::Malformed) ==> text@ != encode(w) + rest,
        read matches Err(SyntaxError::TrailingBytes(at)) ==> at < text@.len() && exists|v: Value|
            #[trigger] encode(v) == text@.take(at as int),
{
    assert(text@.len() == text.len());
    lemma_first_byte(w);
    lemma_first_value_len(w, rest);
    if text@ == encode(w) + rest && rest.len() > 0 {
        if let Ok(v) = read {
            law_parse(text, read, v@);
            assert(encode(v@) + seq![] =~= text@);
            lemma_prefix_free(v@, seq![], w, rest);
        }
    }
    if text@.len() == 0 {
        if let Ok(v) = read {
            law_parse(text, read, v@);
            lemma_first_byte(v@);
        }
    }
    if let Err(SyntaxError::TrailingBytes(at)) = read {
        assert(starts_with_value(text@));
        let v = choose|v: Value| #[trigger] encode(v).is_prefix_of(text@);
        assert(encode(v).len() == at);
        assert(encode(v) =~= text@.take(at as int));
        if at == text@.len() {
            assert(text@.take(at as int) =~= text@);
            law_parse(text, read, v);
        }
    }
}

/// What is said of a text that is refused; the place is written in decimal.
pub proof fn law_syntax_error_is_said(error: SyntaxError, text: String)
    requires
        call_ensures(SyntaxError::message, (&error,), text),
    ensures
        error is Empty ==> text@ == "no value"@,
        error is Malformed ==> text@ == "malformed value"@,
        error matches SyntaxError::TrailingBytes(at) ==> {
            let lead = "trailing bytes at offset "@;
            let digits = text@.skip(lead.len() as int);
            &&& text@ == lead + digits
            &&& digits.len() > 0
            &&& numeric(digits)
            &&& number(digits) == at
            &&& digits.len() > 1 ==> digits[0] != '0'
        },
{
    if let SyntaxError::TrailingBytes(at) = error {
        let lead = "trailing bytes at offset "@;
        lemma_decimal_denotes(at as nat);
        assert(text@.skip(lead.len() as int) =~= chars_of(decimal(at as nat)));
    }
}

/// The value of a number is the number, of bytes the bytes, and of a list or a
/// dictionary the values of the parts, each at its place.
pub proof fn lemma_view_of_parts(v: Bencode, i: int)
    ensures
        v matches Bencode::Int(n) ==> v@ == Value::Int(n),
        v matches Bencode::Bytes(b) ==> v@ == Value::Bytes(b@),
        v matches Bencode::List(items) ==> {
            &&& v@ is List
            &&& v@->List_0.len() == items@.len()
            &&& 0 <= i < items@.len() ==> v@->List_0[i] == items@[i]@
        },
        v matches Bencode::Dict(entries) ==> {
            &&& v@ is Dict
            &&& v@->Dict_0.len() == entries@.len()
            &&& 0 <= i < entries@.len() ==> v@->Dict_0[i] == (entries@[i].0@, entries@[i].1@)
        },
{
}

/// A key is found at an entry if no later one has the same key, however many
/// entries there are; where none has the key, nothing is found.
pub proof fn lemma_last_entry_counts(entries: Seq<(Seq<u8>, Value)>, key: Seq<u8>, i: int)
    requires
        forall|j: int| 0 <= j < entries.len() && i < j ==> #[trigger] entries[j].0 != key,
    ensures
        0 <= i < entries.len() && entries[i].0 == key ==> lookup(entries, key) == Some(
            entries[i].1,
        ),
        i < 0 ==> lookup(entries, key) is None,
    decreases entries.len(),
{
    if entries.len() > 0 && i < entries.len() - 1 {
        let front = entries.drop_last();
        assert(entries[entries.len() - 1].0 != key);
        assert forall|j: int| 0 <= j < front.len() && i < j implies #[trigger] front[j].0 != key by {
            assert(front[j] == entries[j]);
        }
        lemma_last_entry_counts(front, key, i);
        if 0 <= i {
            assert(front[i] == entries[i]);
        }
    }
}

/// A key is found exactly if some entry has it.
pub proof fn lemma_found_if_there(entries: Seq<(Seq<u8>, Value)>, key: Seq<u8>)
    ensures
        lookup(entries, key) is Some <==> exists|i: int|
            0 <= i < entries.len() && #[trigger] entries[i].0 == key,
    decreases entries.len(),
{
    if entries.len() > 0 {
        let front = entries.drop_last();
        lemma_found_if_there(front, key);
        if exists|i: int| 0 <= i < front.len() && #[trigger] front[i].0 == key {
            let i = choose|i: int| 0 <= i < front.len() && #[trigger] front[i].0 == key;
            assert(entries[i].0 == key);
        }
        if exists|i: int| 0 <= i < entries.len() && #[trigger] entries[i].0 == key {
            let i = choose|i: int| 0 <= i < entries.len() && #[trigger] entries[i].0 == key;
            if i < front.len() {
                assert(front[i].0 == key);
            }
        }
    }
}

/// Looking up a key in a dictionary finds the value of the last entry that has
/// the key, wherever it stands; and something exactly if some entry has it.
pub proof fn law_get(
    v: &Bencode,
    key: &[u8],
    found: Option<&Bencode>,
    entries: Vec<(Vec<u8>, Bencode)>,
    i: int,
)
    requires
        call_ensures(Bencode::get, (v, key), found),
        *v == Bencode::Dict(entries),
    ensures
        found is Some <==> exists|j: int|
            0 <= j < entries@.len() && #[trigger] entries@[j].0@ == key@,
        0 <= i < entries@.len() && entries@[i].0@ == key@ && (forall|j: int|
            i < j < entries@.len() ==> #[trigger] entries@[j].0@ != key@) ==> (found matches Some(w)
            && w@ == entries@[i].1@),
{
    let all = entry_values(entries@);
    lemma_found_if_there(all, key@);
    if exists|j: int| 0 <= j < all.len() && #[trigger] all[j].0 == key@ {
        let j = choose|j: int| 0 <= j < all.len() && #[trigger] all[j].0 == key@;
        assert(entries@[j].0@ == key@);
    }
    if exists|j: int| 0 <= j < entries@.len() && #[trigger] entries@[j].0@ == key@ {
        let j = choose|j: int| 0 <= j < entries@.len() && #[trigger] entries@[j].0@ == key@;
        assert(all[j].0 == key@);
    }
    if 0 <= i < entries@.len() && entries@[i].0@ == key@ && (forall|j: int|
        i < j < entries@.len() ==> #[trigger] entries@[j].0@ != key@) {
        assert forall|j: int| i < j < all.len() implies #[trigger] all[j].0 != key@ by {
            assert(entries@[j].0@ != key@);
        }
        assert(all[i].0 == key@);
        lemma_last_entry_counts(all, key@, i);
    }
}

/// Nothing is found under a key in what is no dictionary.
pub proof fn law_get_needs_dictionary(v: &Bencode, key: &[u8], found: Option<&Bencode>)
    requires
        call_ensures(Bencode::get, (v, key), found),
        !(v is Dict),
    ensures
        found is None,
{
}

/// The text of a value is the one of which its bytes are the encoding; there is
/// none if they are no encoding, or if the value is no byte string.
pub proof fn law_as_str(v: &Bencode, text: Option<&str>, t: Seq<char>)
    requires
        call_ensures(Bencode::as_str, (v,), text),
    ensures
        v matches Bencode::Bytes(b) ==> b@ == encode_utf8(t) ==> (text matches Some(s) && s@ == t),
        text matches Some(s) ==> (v matches Bencode::Bytes(b) && b@ == encode_utf8(s@)),
{
    if let Bencode::Bytes(b) = v {
        lemma_utf8_text(b@, t);
        if let Some(s) = text {
            lemma_utf8_text(b@, s@);
        }
    }
}

/// The number of a value is the integer that it is; there is none otherwise.
pub proof fn law_as_int(v: &Bencode, n: Option<i64>)
    requires
        call_ensures(Bencode::as_int, (v,), n),
    ensures
        v matches Bencode::Int(m) ==> n == Some(*m),
        !(v is Int) ==> n is None,
{
}

/// Every text and every value is taken.
pub proof fn law_values_are_taken(text: &[u8], v: &Bencode, key: &[u8], error: SyntaxError)
    ensures
        call_requires(parse, (text,)),
        call_requires(Bencode::get, (v, key)),
        call_requires(Bencode::as_str, (v,)),
        call_requires(Bencode::as_int, (v,)),
        call_requires(SyntaxError::message, (&error,)),
{
}

} // verus!
