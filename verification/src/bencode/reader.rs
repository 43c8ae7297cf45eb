//! Reading a value from its notation.
//!
//! The reader calls itself once for each level of nesting, as does the drop of
//! what it returns, so the depth of a text is bounded by the stack alone.
use super::grammar::{
    decode, encode, encode_bytes, encode_entries, encode_items, lemma_bytes_prefix_free,
    lemma_decode_of_encode, lemma_digit_run_is_unique, lemma_entries_are_prefix, lemma_first_byte,
    lemma_first_value_len, lemma_items_are_prefix, lemma_prefix_free, no_digit_first, signed,
    syntax_error, SyntaxError, Value, COLON, DICT, END, INT, LIST, MINUS,
};
use super::value::{entry_values, item_values, Bencode};
use crate::decimal::{
    all_digits, decimal, is_canonical, is_digit, lemma_decimal_is_canonical, lemma_decimal_of_value,
    lemma_value_of_decimal, value, NINE, ZERO,
};
use vstd::prelude::*;
use vstd::slice::slice_subrange;

verus! {

/// Whether a text starts with the notation of a value and goes on with `rest`.
pub open spec fn starts_value(text: Seq<u8>, v: Value, rest: Seq<u8>) -> bool {
    text == encode(v) + rest
}

/// Whether a text starts with the notation of a byte string.
pub open spec fn starts_bytes(text: Seq<u8>, b: Seq<u8>, rest: Seq<u8>) -> bool {
    text == encode_bytes(b) + rest
}

/// Whether a text starts with the items of a list and the byte that closes it.
pub open spec fn starts_items(text: Seq<u8>, items: Seq<Value>, rest: Seq<u8>) -> bool {
    text == encode_items(items) + (seq![END] + rest)
}

/// Whether a text starts with the entries of a dictionary and the byte that
/// closes it.
pub open spec fn starts_entries(
    text: Seq<u8>,
    entries: Seq<(Seq<u8>, Value)>,
    rest: Seq<u8>,
) -> bool {
    text == encode_entries(entries) + (seq![END] + rest)
}

/// Adding an item to a list adds its notation.
pub proof fn lemma_encode_items_push(items: Seq<Value>, v: Value)
    ensures
        encode_items(items.push(v)) == encode_items(items) + encode(v),
    decreases items.len(),
{
    let more = items.push(v);
    let more1 = more.subrange(1, more.len() as int);
    if items.len() == 0 {
        assert(more1 =~= seq![]);
        assert(encode_items(more1) =~= seq![]);
        assert(encode_items(more) =~= encode(v));
        assert(encode_items(items) + encode(v) =~= encode(v));
    } else {
        let items1 = items.subrange(1, items.len() as int);
        lemma_encode_items_push(items1, v);
        assert(more1 =~= items1.push(v));
        assert(encode_items(more) =~= encode_items(items) + encode(v));
    }
}

/// Adding an entry to a dictionary adds the notation of its key and value.
pub proof fn lemma_encode_entries_push(entries: Seq<(Seq<u8>, Value)>, key: Seq<u8>, v: Value)
    ensures
        encode_entries(entries.push((key, v))) == encode_entries(entries) + (encode_bytes(key)
            + encode(v)),
    decreases entries.len(),
{
    let more = entries.push((key, v));
    let more1 = more.subrange(1, more.len() as int);
    if entries.len() == 0 {
        assert(more1 =~= seq![]);
        assert(encode_entries(more1) =~= seq![]);
        assert(encode_entries(more) =~= encode_entries(entries) + (encode_bytes(key) + encode(v)));
    } else {
        let entries1 = entries.subrange(1, entries.len() as int);
        lemma_encode_entries_push(entries1, key, v);
        assert(more1 =~= entries1.push((key, v)));
        assert(encode_entries(more) =~= encode_entries(entries) + (encode_bytes(key) + encode(v)));
    }
}

/// Reads the digits at `pos`: where they end, and the number they denote,
/// unless it is out of the range of `u64`.
fn read_digits(text: &[u8], pos: usize) -> (read: (Option<u64>, usize))
    requires
        pos <= text.len(),
    ensures
        pos <= read.1 <= text.len(),
        all_digits(text@.subrange(pos as int, read.1 as int)),
        no_digit_first(text@.skip(read.1 as int)),
        read.0 matches Some(n) ==> n == value(text@.subrange(pos as int, read.1 as int)),
        read.0 is None ==> value(text@.subrange(pos as int, read.1 as int)) > u64::MAX,
{
    let mut number: Option<u64> = Some(0);
    let mut at: usize = pos;
    assert(text@.subrange(pos as int, pos as int) =~= seq![]);
    while at < text.len() && ZERO <= text[at] && text[at] <= NINE
        invariant
            pos <= at <= text.len(),
            all_digits(text@.subrange(pos as int, at as int)),
            number matches Some(n) ==> n == value(text@.subrange(pos as int, at as int)),
            number is None ==> value(text@.subrange(pos as int, at as int)) > u64::MAX,
        decreases text.len() - at,
    {
        let digit: u64 = (text[at] - ZERO) as u64;
        proof {
            let run = text@.subrange(pos as int, at as int);
            let longer = text@.subrange(pos as int, at + 1);
            assert(longer =~= run.push(text@[at as int]));
            assert(longer.drop_last() =~= run);
            assert(value(longer) == value(run) * 10 + digit);
        }
        number = match number {
            Some(n) => match n.checked_mul(10) {
                Some(tens) => tens.checked_add(digit),
                None => None,
            },
            None => None,
        };
        at = at + 1;
    }
    (number, at)
}

/// Reads the byte string at `pos`: its bytes, and where it ends.
fn read_bytes(text: &[u8], pos: usize) -> (read: Option<(Vec<u8>, usize)>)
    requires
        pos <= text.len(),
    ensures
        read matches Some((b, next)) ==> pos < next <= text.len() && starts_bytes(
            text@.skip(pos as int),
            b@,
            text@.skip(next as int),
        ),
        read is None ==> forall|b: Seq<u8>, rest: Seq<u8>|
            !#[trigger] starts_bytes(text@.skip(pos as int), b, rest),
{
    let (number, end) = read_digits(text, pos);
    let ghost here = text@.skip(pos as int);
    let ghost run = text@.subrange(pos as int, end as int);
    let ghost after = text@.skip(end as int);
    proof {
        assert(here =~= run + after);
        assert forall|b: Seq<u8>, rest: Seq<u8>| #[trigger] starts_bytes(here, b, rest) implies {
            &&& run == decimal(b.len())
            &&& is_canonical(run)
            &&& value(run) == b.len()
            &&& after == seq![COLON] + b + rest
        } by {
            lemma_decimal_is_canonical(b.len());
            lemma_value_of_decimal(b.len());
            assert(encode_bytes(b) + rest =~= decimal(b.len()) + (seq![COLON] + b + rest));
            lemma_digit_run_is_unique(run, after, decimal(b.len()), seq![COLON] + b + rest);
        }
    }
    if end == pos || (end - pos > 1 && text[pos] == ZERO) {
        assert(end > pos ==> run[0] == text@[pos as int]);
        return None;
    }
    if end >= text.len() || text[end] != COLON {
        assert(end < text.len() ==> after[0] == text@[end as int]);
        return None;
    }
    let start: usize = end + 1;
    match number {
        Some(n) if n <= (text.len() - start) as u64 => {
            let next: usize = start + n as usize;
            let mut b: Vec<u8> = Vec::new();
            b.extend_from_slice(slice_subrange(text, start, next));
            proof {
                assert(b@ =~= text@.subrange(start as int, next as int));
                assert(run[0] == text@[pos as int]);
                lemma_decimal_of_value(run);
                assert(here =~= encode_bytes(b@) + text@.skip(next as int));
            }
            Some((b, next))
        },
        _ => {
            assert forall|b: Seq<u8>, rest: Seq<u8>| !#[trigger] starts_bytes(here, b, rest) by {
                if starts_bytes(here, b, rest) {
                    assert(after.len() == 1 + b.len() + rest.len());
                }
            }
            None
        },
    }
}

/// What a text that starts with an integer's opening byte, an optional sign and
/// a run of digits tells of the value that it starts with.
proof fn lemma_int_shape(negative: bool, run: Seq<u8>, after: Seq<u8>, v: Value, rest: Seq<u8>)
    requires
        all_digits(run),
        no_digit_first(after),
        !negative ==> (run + after).len() == 0 || (run + after)[0] != MINUS,
        starts_value(int_text(negative, run, after), v, rest),
    ensures
        v is Int,
        negative <==> v->Int_0 < 0,
        value(run) == (if negative {
            -(v->Int_0)
        } else {
            v->Int_0 as int
        }),
        is_canonical(run),
        after == seq![END] + rest,
{
    let here = int_text(negative, run, after);
    lemma_first_byte(v);
    assert(here[0] == encode(v)[0]);
    let n = v->Int_0 as int;
    let m = if n < 0 {
        -n
    } else {
        n
    };
    lemma_decimal_is_canonical(m as nat);
    lemma_value_of_decimal(m as nat);
    assert(is_digit(decimal(m as nat)[0]));
    let tail = signed(n) + (seq![END] + rest);
    assert(here.skip(1) =~= tail);
    assert(tail[0] == signed(n)[0]);
    if negative {
        assert(here.skip(1)[0] == MINUS);
        assert(here.skip(2) =~= run + after);
        assert(here.skip(2) =~= tail.skip(1));
        assert(tail.skip(1) =~= decimal(m as nat) + (seq![END] + rest));
    } else {
        assert(here.skip(1) =~= run + after);
    }
    lemma_digit_run_is_unique(run, after, decimal(m as nat), seq![END] + rest);
}

/// The opening byte of an integer, a minus sign if the integer is to be
/// negative, and what follows.
spec fn int_text(negative: bool, run: Seq<u8>, after: Seq<u8>) -> Seq<u8> {
    if negative {
        seq![INT] + (seq![MINUS] + (run + after))
    } else {
        seq![INT] + (run + after)
    }
}

/// Reads the integer of which the opening byte is at `pos`.
fn read_int(text: &[u8], pos: usize) -> (read: Option<(i64, usize)>)
    requires
        pos < text.len(),
        text@[pos as int] == INT,
    ensures
        read matches Some((n, next)) ==> pos < next <= text.len() && starts_value(
            text@.skip(pos as int),
            Value::Int(n),
            text@.skip(next as int),
        ),
        read is None ==> forall|v: Value, rest: Seq<u8>|
            !#[trigger] starts_value(text@.skip(pos as int), v, rest),
{
    let negative: bool = pos + 1 < text.len() && text[pos + 1] == MINUS;
    let start: usize = if negative {
        pos + 2
    } else {
        pos + 1
    };
    let (number, end) = read_digits(text, start);
    let ghost here = text@.skip(pos as int);
    let ghost run = text@.subrange(start as int, end as int);
    let ghost after = text@.skip(end as int);
    proof {
        assert(run + after =~= text@.skip(start as int));
        assert(here =~= int_text(negative, run, after));
        assert forall|v: Value, rest: Seq<u8>| #[trigger] starts_value(here, v, rest) implies {
            &&& v is Int
            &&& negative <==> v->Int_0 < 0
            &&& value(run) == (if negative {
                -(v->Int_0)
            } else {
                v->Int_0 as int
            })
            &&& is_canonical(run)
            &&& after.len() > 0
            &&& after[0] == END
        } by {
            lemma_int_shape(negative, run, after, v, rest);
        }
    }
    if end == start || (end - start > 1 && text[start] == ZERO) {
        assert(end > start ==> run[0] == text@[start as int]);
        return None;
    }
    if end >= text.len() || text[end] != END {
        assert(end < text.len() ==> after[0] == text@[end as int]);
        return None;
    }
    let next: usize = end + 1;
    let n: i64 = match number {
        Some(m) if !negative && m <= i64::MAX as u64 => m as i64,
        Some(m) if negative && 0 < m && m <= i64::MAX as u64 => -(m as i64),
        Some(m) if negative && m == 0x8000_0000_0000_0000 => i64::MIN,
        _ => {
            return None;
        },
    };
    proof {
        assert(run[0] == text@[start as int]);
        lemma_decimal_of_value(run);
        assert(after =~= seq![END] + text@.skip(next as int));
        assert(signed(n as int) == (if negative {
            seq![MINUS] + run
        } else {
            run
        }));
        assert(here =~= seq![INT] + (signed(n as int) + seq![END]) + text@.skip(next as int));
    }
    Some((n, next))
}

/// Reads the value at `pos`, and where it ends.
fn read_value(text: &[u8], pos: usize) -> (read: Option<(Bencode, usize)>)
    requires
        pos <= text.len(),
    ensures
        read matches Some((v, next)) ==> pos < next <= text.len() && starts_value(
            text@.skip(pos as int),
            v@,
            text@.skip(next as int),
        ),
        read is None ==> forall|v: Value, rest: Seq<u8>|
            !#[trigger] starts_value(text@.skip(pos as int), v, rest),
    decreases text.len() - pos, 0nat,
{
    let ghost here = text@.skip(pos as int);
    proof {
        assert forall|v: Value, rest: Seq<u8>| #[trigger] starts_value(here, v, rest) implies pos
            < text.len() && encode(v)[0] == text@[pos as int] by {
            lemma_first_byte(v);
            assert(here.len() > 0);
            assert(here[0] == encode(v)[0]);
        }
    }
    if pos >= text.len() {
        return None;
    }
    let first: u8 = text[pos];
    if first == INT {
        match read_int(text, pos) {
            Some((n, next)) => Some((Bencode::Int(n), next)),
            None => None,
        }
    } else if first == LIST {
        let inside = read_items(text, pos + 1);
        proof {
            let tail = text@.skip(pos + 1);
            assert(here =~= seq![LIST] + tail);
            assert forall|v: Value, rest: Seq<u8>| #[trigger] starts_value(here, v, rest) implies
                v is List && starts_items(tail, v->List_0, rest) by {
                lemma_first_byte(v);
                let items = v->List_0;
                assert(here.skip(1) =~= encode_items(items) + (seq![END] + rest));
                assert(here.skip(1) =~= tail);
            }
        }
        match inside {
            Some((items, next)) => {
                assert(here =~= seq![LIST] + (encode_items(item_values(items@)) + seq![END])
                    + text@.skip(next as int));
                Some((Bencode::List(items), next))
            },
            None => None,
        }
    } else if first == DICT {
        let inside = read_entries(text, pos + 1);
        proof {
            let tail = text@.skip(pos + 1);
            assert(here =~= seq![DICT] + tail);
            assert forall|v: Value, rest: Seq<u8>| #[trigger] starts_value(here, v, rest) implies
                v is Dict && starts_entries(tail, v->Dict_0, rest) by {
                lemma_first_byte(v);
                let entries = v->Dict_0;
                assert(here.skip(1) =~= encode_entries(entries) + (seq![END] + rest));
                assert(here.skip(1) =~= tail);
            }
        }
        match inside {
            Some((entries, next)) => {
                assert(here =~= seq![DICT] + (encode_entries(entry_values(entries@)) + seq![END])
                    + text@.skip(next as int));
                Some((Bencode::Dict(entries), next))
            },
            None => None,
        }
    } else {
        let inside = read_bytes(text, pos);
        proof {
            assert forall|v: Value, rest: Seq<u8>| #[trigger] starts_value(here, v, rest) implies
                v is Bytes && starts_bytes(here, v->Bytes_0, rest) by {
                lemma_first_byte(v);
            }
        }
        match inside {
            Some((b, next)) => Some((Bencode::Bytes(b), next)),
            None => None,
        }
    }
}

/// Reads the items of a list from `start` up to the byte that closes it.
fn read_items(text: &[u8], start: usize) -> (read: Option<(Vec<Bencode>, usize)>)
    requires
        start <= text.len(),
    ensures
        read matches Some((items, next)) ==> start < next <= text.len() && starts_items(
            text@.skip(start as int),
            item_values(items@),
            text@.skip(next as int),
        ),
        read is None ==> forall|items: Seq<Value>, rest: Seq<u8>|
            !#[trigger] starts_items(text@.skip(start as int), items, rest),
    decreases text.len() - start, 1nat,
{
    let ghost whole = text@.skip(start as int);
    let mut items: Vec<Bencode> = Vec::new();
    let mut pos: usize = start;
    assert(item_values(items@) =~= seq![]);
    assert(encode_items(seq![]) + whole =~= whole);
    while pos < text.len() && text[pos] != END
        invariant
            start <= pos <= text.len(),
            whole == text@.skip(start as int),
            whole == encode_items(item_values(items@)) + text@.skip(pos as int),
        decreases text.len() - pos,
    {
        let ghost here = text@.skip(pos as int);
        let ghost before = item_values(items@);
        match read_value(text, pos) {
            Some((v, next)) => {
                items.push(v);
                proof {
                    assert(item_values(items@) =~= before.push(v@));
                    lemma_encode_items_push(before, v@);
                    assert(whole =~= encode_items(item_values(items@)) + text@.skip(next as int));
                }
                pos = next;
            },
            None => {
                assert forall|all: Seq<Value>, rest: Seq<u8>|
                    !#[trigger] starts_items(whole, all, rest) by {
                    if starts_items(whole, all, rest) {
                        lemma_items_are_prefix(before, here, all, rest);
                        let left = all.skip(before.len() as int);
                        assert(here[0] == text@[pos as int]);
                        if left.len() == 0 {
                            assert(here =~= seq![END] + rest);
                        } else {
                            let left1 = left.subrange(1, left.len() as int);
                            let beyond = encode_items(left1) + (seq![END] + rest);
                            assert(here =~= encode(left[0]) + beyond);
                            assert(starts_value(here, left[0], beyond));
                        }
                    }
                }
                return None;
            },
        }
    }
    let ghost here = text@.skip(pos as int);
    let ghost before = item_values(items@);
    if pos >= text.len() {
        assert forall|all: Seq<Value>, rest: Seq<u8>|
            !#[trigger] starts_items(whole, all, rest) by {
            if starts_items(whole, all, rest) {
                lemma_items_are_prefix(before, here, all, rest);
                assert(here.len() > 0);
            }
        }
        return None;
    }
    assert(here =~= seq![END] + text@.skip(pos + 1));
    Some((items, pos + 1))
}

/// Reads the entries of a dictionary from `start` up to the byte that closes
/// it.
fn read_entries(text: &[u8], start: usize) -> (read: Option<(Vec<(Vec<u8>, Bencode)>, usize)>)
    requires
        start <= text.len(),
    ensures
        read matches Some((entries, next)) ==> start < next <= text.len() && starts_entries(
            text@.skip(start as int),
            entry_values(entries@),
            text@.skip(next as int),
        ),
        read is None ==> forall|entries: Seq<(Seq<u8>, Value)>, rest: Seq<u8>|
            !#[trigger] starts_entries(text@.skip(start as int), entries, rest),
    decreases text.len() - start, 1nat,
{
    let ghost whole = text@.skip(start as int);
    let mut entries: Vec<(Vec<u8>, Bencode)> = Vec::new();
    let mut pos: usize = start;
    assert(entry_values(entries@) =~= seq![]);
    assert(encode_entries(seq![]) + whole =~= whole);
    while pos < text.len() && text[pos] != END
        invariant
            start <= pos <= text.len(),
            whole == text@.skip(start as int),
            whole == encode_entries(entry_values(entries@)) + text@.skip(pos as int),
        decreases text.len() - pos,
    {
        let ghost here = text@.skip(pos as int);
        let ghost before = entry_values(entries@);
        proof {
            assert forall|all: Seq<(Seq<u8>, Value)>, rest: Seq<u8>| #[trigger]
                starts_entries(whole, all, rest) implies exists|k: Seq<u8>, v: Value, r: Seq<u8>|
                #[trigger] starts_bytes(here, k, encode(v) + r) by {
                lemma_entries_are_prefix(before, here, all, rest);
                let left = all.skip(before.len() as int);
                assert(here[0] == text@[pos as int]);
                if left.len() == 0 {
                    assert(here =~= seq![END] + rest);
                } else {
                    let left1 = left.subrange(1, left.len() as int);
                    let beyond = encode_entries(left1) + (seq![END] + rest);
                    assert(here =~= encode_bytes(left[0].0) + (encode(left[0].1) + beyond));
                    assert(starts_bytes(here, left[0].0, encode(left[0].1) + beyond));
                }
            }
        }
        let (key, middle) = match read_bytes(text, pos) {
            Some(found) => found,
            None => {
                return None;
            },
        };
        let ghost between = text@.skip(middle as int);
        match read_value(text, middle) {
            Some((v, next)) => {
                let ghost name = key@;
                entries.push((key, v));
                proof {
                    assert(entry_values(entries@) =~= before.push((name, v@)));
                    lemma_encode_entries_push(before, name, v@);
                    assert(whole =~= encode_entries(entry_values(entries@)) + text@.skip(
                        next as int,
                    ));
                }
                pos = next;
            },
            None => {
                assert forall|all: Seq<(Seq<u8>, Value)>, rest: Seq<u8>|
                    !#[trigger] starts_entries(whole, all, rest) by {
                    if starts_entries(whole, all, rest) {
                        let (k, v, r) = choose|k: Seq<u8>, v: Value, r: Seq<u8>| #[trigger]
                            starts_bytes(here, k, encode(v) + r);
                        lemma_bytes_prefix_free(key@, between, k, encode(v) + r);
                        assert(starts_value(between, v, r));
                    }
                }
                return None;
            },
        }
    }
    let ghost here = text@.skip(pos as int);
    let ghost before = entry_values(entries@);
    if pos >= text.len() {
        assert forall|all: Seq<(Seq<u8>, Value)>, rest: Seq<u8>|
            !#[trigger] starts_entries(whole, all, rest) by {
            if starts_entries(whole, all, rest) {
                lemma_entries_are_prefix(before, here, all, rest);
                assert(here.len() > 0);
            }
        }
        return None;
    }
    assert(here =~= seq![END] + text@.skip(pos + 1));
    Some((entries, pos + 1))
}

/// Reads a text that is the notation of one value, from its first byte to its
/// last; there is no other text that it accepts.
pub fn parse(text: &[u8]) -> (read: Result<Bencode, SyntaxError>)
    ensures
        read is Ok <==> decode(text@) is Some,
        read matches Ok(v) ==> decode(text@) == Some(v@),
        read matches Err(e) ==> e == syntax_error(text@),
{
    assert(text@.skip(0) =~= text@);
    match read_value(text, 0) {
        Some((v, next)) => {
            let ghost rest = text@.skip(next as int);
            if next == text.len() {
                assert(encode(v@) + rest =~= encode(v@));
                proof {
                    lemma_decode_of_encode(v@);
                }
                Ok(v)
            } else {
                assert forall|w: Value| encode(w) != text@ by {
                    if encode(w) == text@ {
                        assert(encode(w) + seq![] =~= text@);
                        lemma_prefix_free(v@, rest, w, seq![]);
                    }
                }
                proof {
                    lemma_first_value_len(v@, rest);
                    assert(encode(v@).len() == next);
                }
                Err(SyntaxError::TrailingBytes(next))
            }
        },
        None => {
            assert forall|w: Value| encode(w) != text@ by {
                assert(encode(w) + seq![] =~= encode(w));
                assert(!starts_value(text@, w, seq![]));
            }
            assert forall|w: Value| !#[trigger] encode(w).is_prefix_of(text@) by {
                if encode(w).is_prefix_of(text@) {
                    let rest = text@.skip(encode(w).len() as int);
                    assert(text@ =~= encode(w) + rest);
                    assert(!starts_value(text@, w, rest));
                }
            }
            if text.len() == 0 {
                Err(SyntaxError::Empty)
            } else {
                Err(SyntaxError::Malformed)
            }
        },
    }
}

} // verus!
