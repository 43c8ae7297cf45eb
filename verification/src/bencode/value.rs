//! Values in memory, and how their parts are looked up.
use super::grammar::Value;
use crate::text::{utf8_str, utf8_text};
use vstd::prelude::*;

verus! {

/// A bencoded value. A dictionary keeps its entries in the order of the text.
#[derive(Debug)]
pub enum Bencode {
    Int(i64),
    Bytes(Vec<u8>),
    List(Vec<Bencode>),
    Dict(Vec<(Vec<u8>, Bencode)>),
}

/// The values of the items of a list.
pub open spec fn item_values(items: Seq<Bencode>) -> Seq<Value>
    decreases items,
{
    Seq::new(
        items.len(),
        |i: int|
            if 0 <= i < items.len() {
                items[i].view()
            } else {
                arbitrary()
            },
    )
}

/// The keys and values of the entries of a dictionary.
pub open spec fn entry_values(entries: Seq<(Vec<u8>, Bencode)>) -> Seq<(Seq<u8>, Value)>
    decreases entries,
{
    Seq::new(
        entries.len(),
        |i: int|
            if 0 <= i < entries.len() {
                (entries[i].0@, entries[i].1.view())
            } else {
                arbitrary()
            },
    )
}

/// The value of the last entry that has the key.
pub open spec fn lookup(entries: Seq<(Seq<u8>, Value)>, key: Seq<u8>) -> Option<Value>
    decreases entries.len(),
{
    if entries.len() == 0 {
        None
    } else if entries.last().0 == key {
        Some(entries.last().1)
    } else {
        lookup(entries.drop_last(), key)
    }
}

impl Value {
    /// The value under a key, if this is a dictionary that has the key.
    pub open spec fn field(self, key: Seq<u8>) -> Option<Value> {
        match self {
            Value::Dict(entries) => lookup(entries, key),
            _ => None,
        }
    }

    /// The text, if this is a byte string in UTF-8.
    pub open spec fn text(self) -> Option<Seq<char>> {
        match self {
            Value::Bytes(b) => utf8_text(b),
            _ => None,
        }
    }

    /// The number, if this is an integer.
    pub open spec fn number(self) -> Option<i64> {
        match self {
            Value::Int(n) => Some(n),
            _ => None,
        }
    }

    /// The text of the field, if there is such a field and it is text.
    pub open spec fn text_field(self, key: Seq<u8>) -> Option<Seq<char>> {
        match self.field(key) {
            Some(v) => v.text(),
            None => None,
        }
    }

    /// The number in the field, if there is such a field and it is a number.
    pub open spec fn number_field(self, key: Seq<u8>) -> Option<i64> {
        match self.field(key) {
            Some(v) => v.number(),
            None => None,
        }
    }
}

/// Whether two byte slices hold the same bytes.
fn same_bytes(a: &[u8], b: &[u8]) -> (same: bool)
    ensures
        same == (a@ == b@),
{
    if a.len() != b.len() {
        return false;
    }
    let mut i: usize = 0;
    while i < a.len()
        invariant
            i <= a.len(),
            a.len() == b.len(),
            forall|j: int| 0 <= j < i ==> a@[j] == b@[j],
        decreases a.len() - i,
    {
        if a[i] != b[i] {
            return false;
        }
        i = i + 1;
    }
    assert(a@ =~= b@);
    true
}

impl Bencode {
    /// The value, apart from its representation.
    pub open spec fn view(self) -> Value
        decreases self,
    {
        match self {
            Bencode::Int(n) => Value::Int(n),
            Bencode::Bytes(b) => Value::Bytes(b@),
            Bencode::List(items) => Value::List(item_values(items@)),
            Bencode::Dict(entries) => Value::Dict(entry_values(entries@)),
        }
    }

    /// The value under a key, if this is a dictionary that has the key; of
    /// several entries with the key, the last.
    pub fn get(&self, key: &[u8]) -> (found: Option<&Bencode>)
        ensures
            found is Some <==> self@.field(key@) is Some,
            found matches Some(v) ==> self@.field(key@) == Some(v@),
    {
        if let Bencode::Dict(entries) = self {
            let ghost all = entry_values(entries@);
            let mut left: usize = entries.len();
            assert(all.take(left as int) =~= all);
            while left > 0
                invariant
                    left <= entries.len(),
                    all == entry_values(entries@),
                    self@ == Value::Dict(all),
                    lookup(all, key@) == lookup(all.take(left as int), key@),
                decreases left,
            {
                let ghost head = all.take(left as int);
                left = left - 1;
                assert(head.last() == all[left as int]);
                assert(head.drop_last() =~= all.take(left as int));
                if same_bytes(entries[left].0.as_slice(), key) {
                    return Some(&entries[left].1);
                }
            }
        }
        None
    }

    /// The text, if this is a byte string in UTF-8.
    pub fn as_str(&self) -> (text: Option<&str>)
        ensures
            text is Some <==> self@.text() is Some,
            text matches Some(s) ==> self@.text() == Some(s@),
    {
        match self {
            Bencode::Bytes(b) => utf8_str(b.as_slice()),
            _ => None,
        }
    }

    /// The number, if this is an integer.
    pub fn as_int(&self) -> (number: Option<i64>)
        ensures
            number == self@.number(),
    {
        match self {
            Bencode::Int(n) => Some(*n),
            _ => None,
        }
    }
}

} // verus!
