//! What the notation of a value is, and that no text is the notation of two.
use crate::decimal::{
    all_digits, decimal, is_digit, lemma_decimal_is_canonical, lemma_value_of_decimal, push_u64,
};
use crate::text::chars_of;
use vstd::prelude::*;

verus! {

/// The ASCII code of `i`, which opens an integer.
pub const INT: u8 = 0x69;

/// The ASCII code of `l`, which opens a list.
pub const LIST: u8 = 0x6c;

/// The ASCII code of `d`, which opens a dictionary.
pub const DICT: u8 = 0x64;

/// The ASCII code of `e`, which closes an integer, a list or a dictionary.
pub const END: u8 = 0x65;

/// The ASCII code of `:`, which separates a byte string from its length.
pub const COLON: u8 = 0x3a;

/// The ASCII code of `-`.
pub const MINUS: u8 = 0x2d;

/// A value, apart from how it is written down. A dictionary is the sequence of
/// its entries, in the order in which the text has them.
pub enum Value {
    Int(i64),
    Bytes(Seq<u8>),
    List(Seq<Value>),
    Dict(Seq<(Seq<u8>, Value)>),
}

/// An integer in decimal notation, with a minus sign if it is negative.
pub open spec fn signed(n: int) -> Seq<u8> {
    if n < 0 {
        seq![MINUS] + decimal((-n) as nat)
    } else {
        decimal(n as nat)
    }
}

/// A byte string: its length, a colon, its bytes.
pub open spec fn encode_bytes(b: Seq<u8>) -> Seq<u8> {
    decimal(b.len()) + (seq![COLON] + b)
}

/// The notation of a value.
pub open spec fn encode(v: Value) -> Seq<u8>
    decreases v,
{
    match v {
        Value::Int(n) => seq![INT] + (signed(n as int) + seq![END]),
        Value::Bytes(b) => encode_bytes(b),
        Value::List(items) => seq![LIST] + (encode_items(items) + seq![END]),
        Value::Dict(entries) => seq![DICT] + (encode_entries(entries) + seq![END]),
    }
}

/// The notations of the items of a list, one after the other.
pub open spec fn encode_items(items: Seq<Value>) -> Seq<u8>
    decreases items,
{
    if items.len() == 0 {
        seq![]
    } else {
        encode(items[0]) + encode_items(items.subrange(1, items.len() as int))
    }
}

/// The entries of a dictionary one after the other, each key before its value.
pub open spec fn encode_entries(entries: Seq<(Seq<u8>, Value)>) -> Seq<u8>
    decreases entries,
{
    if entries.len() == 0 {
        seq![]
    } else {
        encode_bytes(entries[0].0) + encode(entries[0].1) + encode_entries(
            entries.subrange(1, entries.len() as int),
        )
    }
}

/// The value that a text is the notation of, if there is one.
pub open spec fn decode(text: Seq<u8>) -> Option<Value> {
    if exists|v: Value| encode(v) == text {
        Some(choose|v: Value| encode(v) == text)
    } else {
        None
    }
}

/// Why a text is not the notation of a value.
#[derive(Debug, Clone, Copy, PartialEq, Eq)]
pub enum SyntaxError {
    /// It is empty.
    Empty,
    /// It does not start with the notation of a value.
    Malformed,
    /// It starts with the notation of a value, and goes on at this place.
    TrailingBytes(usize),
}

/// Whether a text starts with the notation of a value.
pub open spec fn starts_with_value(text: Seq<u8>) -> bool {
    exists|v: Value| #[trigger] encode(v).is_prefix_of(text)
}

/// The length of the notation that a text starts with.
pub open spec fn first_value_len(text: Seq<u8>) -> nat {
    encode(choose|v: Value| #[trigger] encode(v).is_prefix_of(text)).len()
}

/// Why a text that is not the notation of a value is none.
pub open spec fn syntax_error(text: Seq<u8>) -> SyntaxError {
    if text.len() == 0 {
        SyntaxError::Empty
    } else if starts_with_value(text) {
        SyntaxError::TrailingBytes(first_value_len(text) as usize)
    } else {
        SyntaxError::Malformed
    }
}

impl SyntaxError {
    /// What is said of the text.
    pub open spec fn text(self) -> Seq<char> {
        match self {
            SyntaxError::Empty => "no value"@,
            SyntaxError::Malformed => "malformed value"@,
            SyntaxError::TrailingBytes(at) => "trailing bytes at offset "@ + chars_of(
                decimal(at as nat),
            ),
        }
    }

    /// The reason in words.
    pub fn message(&self) -> (text: String)
        ensures
            text@ == self.text(),
    {
        match self {
            SyntaxError::Empty => "no value".to_owned(),
            SyntaxError::Malformed => "malformed value".to_owned(),
            SyntaxError::TrailingBytes(at) => {
                let mut text = "trailing bytes at offset ".to_owned();
                push_u64(&mut text, *at as u64);
                text
            },
        }
    }
}

/// Whether a text does not start with a digit.
pub open spec fn no_digit_first(s: Seq<u8>) -> bool {
    s.len() > 0 ==> !is_digit(s[0])
}

/// A run of digits ends where the digits end, so it is the same however the
/// text is divided.
pub proof fn lemma_digit_run_is_unique(a: Seq<u8>, x: Seq<u8>, b: Seq<u8>, y: Seq<u8>)
    requires
        all_digits(a),
        all_digits(b),
        no_digit_first(x),
        no_digit_first(y),
        a + x == b + y,
    ensures
        a == b,
        x == y,
{
    if a.len() < b.len() {
        assert(is_digit(b[a.len() as int]));
        assert((a + x)[a.len() as int] == (b + y)[a.len() as int]);
    }
    if b.len() < a.len() {
        assert(is_digit(a[b.len() as int]));
        assert((a + x)[b.len() as int] == (b + y)[b.len() as int]);
    }
    assert(a =~= (a + x).take(a.len() as int));
    assert(b =~= (b + y).take(b.len() as int));
    assert(x =~= (a + x).skip(a.len() as int));
    assert(y =~= (b + y).skip(b.len() as int));
}

/// Two divisions of a text after the same prefix have the same remainder.
pub proof fn lemma_cancel(p: Seq<u8>, x: Seq<u8>, y: Seq<u8>)
    requires
        p + x == p + y,
    ensures
        x == y,
{
    assert(x =~= (p + x).skip(p.len() as int));
    assert(y =~= (p + y).skip(p.len() as int));
}

/// The notation of a byte string starts with a digit, and no text starts with
/// the notations of two byte strings.
pub proof fn lemma_bytes_prefix_free(a: Seq<u8>, x: Seq<u8>, b: Seq<u8>, y: Seq<u8>)
    requires
        encode_bytes(a) + x == encode_bytes(b) + y,
    ensures
        a == b,
        x == y,
{
    let (m, n) = (a.len(), b.len());
    let (s, t) = (seq![COLON] + a + x, seq![COLON] + b + y);
    lemma_decimal_is_canonical(m);
    lemma_decimal_is_canonical(n);
    assert(encode_bytes(a) + x =~= decimal(m) + s);
    assert(encode_bytes(b) + y =~= decimal(n) + t);
    lemma_digit_run_is_unique(decimal(m), s, decimal(n), t);
    lemma_value_of_decimal(m);
    lemma_value_of_decimal(n);
    assert(a =~= s.subrange(1, 1 + m as int));
    assert(b =~= t.subrange(1, 1 + n as int));
    assert(x =~= s.skip(1 + m as int));
    assert(y =~= t.skip(1 + n as int));
}

/// Two integers of which the notations start the same text are the same.
pub proof fn lemma_signed_prefix_free(m: int, x: Seq<u8>, n: int, y: Seq<u8>)
    requires
        no_digit_first(x),
        no_digit_first(y),
        signed(m) + x == signed(n) + y,
    ensures
        m == n,
        x == y,
{
    let (p, q) = (if m < 0 { -m } else { m }, if n < 0 { -n } else { n });
    lemma_decimal_is_canonical(p as nat);
    lemma_decimal_is_canonical(q as nat);
    assert(is_digit(decimal(p as nat)[0]));
    assert(is_digit(decimal(q as nat)[0]));
    assert(signed(m)[0] == (signed(m) + x)[0]);
    assert(signed(n)[0] == (signed(n) + y)[0]);
    assert(m < 0 <==> n < 0);
    if m < 0 {
        assert(decimal(p as nat) + x =~= (signed(m) + x).skip(1));
        assert(decimal(q as nat) + y =~= (signed(n) + y).skip(1));
    }
    lemma_digit_run_is_unique(decimal(p as nat), x, decimal(q as nat), y);
    lemma_value_of_decimal(p as nat);
    lemma_value_of_decimal(q as nat);
}

/// The first byte of a notation tells which kind of value it is; it is never
/// the byte that closes a list or a dictionary.
pub proof fn lemma_first_byte(v: Value)
    ensures
        encode(v).len() > 0,
        encode(v)[0] != END,
        encode(v)[0] == INT <==> v is Int,
        encode(v)[0] == LIST <==> v is List,
        encode(v)[0] == DICT <==> v is Dict,
        is_digit(encode(v)[0]) <==> v is Bytes,
{
    if let Value::Bytes(b) = v {
        lemma_decimal_is_canonical(b.len());
        assert(is_digit(decimal(b.len())[0]));
    }
}

/// No text starts with the notations of two values.
pub proof fn lemma_prefix_free(v: Value, x: Seq<u8>, w: Value, y: Seq<u8>)
    requires
        encode(v) + x == encode(w) + y,
    ensures
        v == w,
        x == y,
    decreases v,
{
    lemma_first_byte(v);
    lemma_first_byte(w);
    assert(encode(v)[0] == (encode(v) + x)[0]);
    assert(encode(w)[0] == (encode(w) + y)[0]);
    match (v, w) {
        (Value::Int(m), Value::Int(n)) => {
            let (s, t) = (seq![END] + x, seq![END] + y);
            assert(signed(m as int) + s =~= (encode(v) + x).skip(1));
            assert(signed(n as int) + t =~= (encode(w) + y).skip(1));
            lemma_signed_prefix_free(m as int, s, n as int, t);
            lemma_cancel(seq![END], x, y);
        },
        (Value::Bytes(a), Value::Bytes(b)) => {
            lemma_bytes_prefix_free(a, x, b, y);
        },
        (Value::List(a), Value::List(b)) => {
            let (s, t) = (seq![END] + x, seq![END] + y);
            assert(encode_items(a) + s =~= (encode(v) + x).skip(1));
            assert(encode_items(b) + t =~= (encode(w) + y).skip(1));
            lemma_items_are_prefix(a, s, b, y);
            let rest = b.skip(a.len() as int);
            if rest.len() > 0 {
                lemma_first_byte(rest[0]);
                assert(s[0] == encode(rest[0])[0]);
            }
            assert(a =~= b);
            assert(encode_items(rest) =~= seq![]);
            assert(s =~= t);
            lemma_cancel(seq![END], x, y);
        },
        (Value::Dict(a), Value::Dict(b)) => {
            let (s, t) = (seq![END] + x, seq![END] + y);
            assert(encode_entries(a) + s =~= (encode(v) + x).skip(1));
            assert(encode_entries(b) + t =~= (encode(w) + y).skip(1));
            lemma_entries_are_prefix(a, s, b, y);
            let rest = b.skip(a.len() as int);
            if rest.len() > 0 {
                lemma_decimal_is_canonical(rest[0].0.len());
                assert(is_digit(decimal(rest[0].0.len())[0]));
                assert(s[0] == decimal(rest[0].0.len())[0]);
            }
            assert(a =~= b);
            assert(encode_entries(rest) =~= seq![]);
            assert(s =~= t);
            lemma_cancel(seq![END], x, y);
        },
        _ => {},
    }
}

/// If a text starts with the items `a` and is a list `b` up to its end, then
/// `b` starts with `a`, and what follows `a` in the text is the rest of `b`.
pub proof fn lemma_items_are_prefix(a: Seq<Value>, x: Seq<u8>, b: Seq<Value>, y: Seq<u8>)
    requires
        encode_items(a) + x == encode_items(b) + (seq![END] + y),
    ensures
        a.len() <= b.len(),
        a == b.take(a.len() as int),
        x == encode_items(b.skip(a.len() as int)) + (seq![END] + y),
    decreases a,
{
    let t = seq![END] + y;
    if a.len() == 0 {
        assert(encode_items(a) + x =~= x);
        assert(b.skip(0) =~= b);
        assert(a =~= b.take(0));
    } else {
        let a1 = a.subrange(1, a.len() as int);
        assert(encode_items(a) + x =~= encode(a[0]) + (encode_items(a1) + x));
        lemma_first_byte(a[0]);
        if b.len() == 0 {
            assert(encode_items(b) + t =~= t);
            assert(encode(a[0])[0] == (encode(a[0]) + (encode_items(a1) + x))[0]);
            assert(t[0] == END);
        } else {
            let b1 = b.subrange(1, b.len() as int);
            assert(encode_items(b) + t =~= encode(b[0]) + (encode_items(b1) + t));
            lemma_prefix_free(a[0], encode_items(a1) + x, b[0], encode_items(b1) + t);
            lemma_items_are_prefix(a1, x, b1, y);
            assert(b.skip(a.len() as int) =~= b1.skip(a1.len() as int));
            assert(a =~= seq![a[0]] + a1);
            assert(b.take(a.len() as int) =~= seq![b[0]] + b1.take(a1.len() as int));
        }
    }
}

/// As for the items of a list, for the entries of a dictionary.
pub proof fn lemma_entries_are_prefix(
    a: Seq<(Seq<u8>, Value)>,
    x: Seq<u8>,
    b: Seq<(Seq<u8>, Value)>,
    y: Seq<u8>,
)
    requires
        encode_entries(a) + x == encode_entries(b) + (seq![END] + y),
    ensures
        a.len() <= b.len(),
        a == b.take(a.len() as int),
        x == encode_entries(b.skip(a.len() as int)) + (seq![END] + y),
    decreases a,
{
    let t = seq![END] + y;
    if a.len() == 0 {
        assert(encode_entries(a) + x =~= x);
        assert(b.skip(0) =~= b);
        assert(a =~= b.take(0));
    } else {
        let a1 = a.subrange(1, a.len() as int);
        let s = encode(a[0].1) + (encode_entries(a1) + x);
        assert(encode_entries(a) + x =~= encode_bytes(a[0].0) + s);
        if b.len() == 0 {
            lemma_decimal_is_canonical(a[0].0.len());
            assert(is_digit(decimal(a[0].0.len())[0]));
            assert(encode_entries(b) + t =~= t);
            assert((encode_bytes(a[0].0) + s)[0] == decimal(a[0].0.len())[0]);
            assert(t[0] == END);
        } else {
            let b1 = b.subrange(1, b.len() as int);
            let u = encode(b[0].1) + (encode_entries(b1) + t);
            assert(encode_entries(b) + t =~= encode_bytes(b[0].0) + u);
            lemma_bytes_prefix_free(a[0].0, s, b[0].0, u);
            lemma_prefix_free(a[0].1, encode_entries(a1) + x, b[0].1, encode_entries(b1) + t);
            lemma_entries_are_prefix(a1, x, b1, y);
            assert(b.skip(a.len() as int) =~= b1.skip(a1.len() as int));
            assert(a =~= seq![a[0]] + a1);
            assert(b.take(a.len() as int) =~= seq![b[0]] + b1.take(a1.len() as int));
        }
    }
}

/// A value can be read back from its notation: no two values are written the
/// same.
pub proof fn lemma_decode_of_encode(v: Value)
    ensures
        decode(encode(v)) == Some(v),
{
    let w = choose|w: Value| encode(w) == encode(v);
    assert(encode(w) == encode(v));
    lemma_prefix_free(w, seq![], v, seq![]);
}

/// Only one value's notation can start a text, so there is one place where it
/// ends.
pub proof fn lemma_first_value_len(v: Value, rest: Seq<u8>)
    ensures
        starts_with_value(encode(v) + rest),
        first_value_len(encode(v) + rest) == encode(v).len(),
{
    let text = encode(v) + rest;
    assert(encode(v) =~= text.subrange(0, encode(v).len() as int));
    assert(encode(v).is_prefix_of(text));
    let w = choose|w: Value| #[trigger] encode(w).is_prefix_of(text);
    let r = text.skip(encode(w).len() as int);
    assert(text =~= encode(w) + r);
    lemma_prefix_free(v, rest, w, r);
}

} // verus!
