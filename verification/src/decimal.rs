//! Decimal notation, as it stands in announce requests and in bencoded text.
use crate::text::chars_of;
use vstd::prelude::*;

verus! {

/// The ASCII code of `0`.
pub const ZERO: u8 = 0x30;

/// The ASCII code of `9`.
pub const NINE: u8 = 0x39;

/// Whether a byte is an ASCII decimal digit.
pub open spec fn is_digit(b: u8) -> bool {
    ZERO <= b <= NINE
}

/// Whether every byte of the sequence is an ASCII decimal digit.
pub open spec fn all_digits(s: Seq<u8>) -> bool {
    forall|i: int| 0 <= i < s.len() ==> is_digit(#[trigger] s[i])
}

/// The decimal notation of a number: no sign, no leading zero.
pub open spec fn decimal(n: nat) -> Seq<u8>
    decreases n,
{
    let last = (ZERO + n % 10) as u8;
    if n < 10 {
        seq![last]
    } else {
        decimal(n / 10).push(last)
    }
}

/// The number that a sequence of digits denotes; leading zeros count for
/// nothing and the empty sequence denotes zero.
pub open spec fn value(s: Seq<u8>) -> nat
    decreases s.len(),
{
    if s.len() == 0 {
        0
    } else {
        value(s.drop_last()) * 10 + (s.last() - ZERO) as nat
    }
}

/// Whether a sequence is a number in decimal notation: digits, at least one,
/// and a leading zero only if it is the sole digit.
pub open spec fn is_canonical(s: Seq<u8>) -> bool {
    &&& s.len() > 0
    &&& all_digits(s)
    &&& s.len() > 1 ==> s[0] != ZERO
}

/// Reading a number's notation gives the number back.
pub proof fn lemma_value_of_decimal(n: nat)
    ensures
        value(decimal(n)) == n,
    decreases n,
{
    let last = (ZERO + n % 10) as u8;
    if n < 10 {
        assert(seq![last].drop_last() =~= seq![]);
        assert(value(seq![]) == 0);
    } else {
        lemma_value_of_decimal(n / 10);
        assert(decimal(n / 10).push(last).drop_last() =~= decimal(n / 10));
    }
}

/// The notation of a number is canonical, and starts with zero for zero alone.
pub proof fn lemma_decimal_is_canonical(n: nat)
    ensures
        is_canonical(decimal(n)),
        decimal(n)[0] == ZERO <==> n == 0,
    decreases n,
{
    if n >= 10 {
        lemma_decimal_is_canonical(n / 10);
    }
}

/// A canonical sequence of digits is the notation of the number it denotes.
pub proof fn lemma_decimal_of_value(s: Seq<u8>)
    requires
        is_canonical(s),
    ensures
        decimal(value(s)) == s,
        s.len() > 1 ==> value(s) >= 10,
    decreases s.len(),
{
    let front = s.drop_last();
    assert(is_digit(s.last()));
    if front.len() == 0 {
        assert(value(front) == 0);
        assert(s =~= seq![s.last()]);
    } else {
        assert(all_digits(front)) by {
            assert forall|i: int| 0 <= i < front.len() implies is_digit(#[trigger] front[i]) by {
                assert(front[i] == s[i]);
            }
        }
        assert(front[0] == s[0]);
        lemma_decimal_of_value(front);
        if front.len() == 1 {
            assert(value(front.drop_last()) == 0);
            assert(value(front) == (front[0] - ZERO) as nat);
        }
        assert(value(s) / 10 == value(front));
        assert(s =~= front.push(s.last()));
    }
}

/// Whether two texts of the same length differ, and the first has the smaller
/// character at the first place where they do.
pub open spec fn comes_before(s: Seq<char>, t: Seq<char>) -> bool {
    s.len() == t.len() && exists|k: int|
        0 <= k < s.len() && s.take(k) == t.take(k) && #[trigger] s[k] < #[trigger] t[k]
}

/// Notation keeps the order of numbers: a smaller number is written shorter, or
/// as long and before the greater one in the order of dictionaries.
pub proof fn lemma_decimal_keeps_order(m: nat, n: nat)
    requires
        m < n,
    ensures
        decimal(m).len() < decimal(n).len() || comes_before(
            chars_of(decimal(m)),
            chars_of(decimal(n)),
        ),
    decreases n,
{
    let (s, t) = (chars_of(decimal(m)), chars_of(decimal(n)));
    if n < 10 {
        assert(s.take(0) =~= t.take(0));
        assert(s[0] < t[0]);
    } else if m < 10 {
        lemma_decimal_is_canonical(n / 10);
    } else {
        let (a, b) = (chars_of(decimal(m / 10)), chars_of(decimal(n / 10)));
        assert(s =~= a.push((ZERO + m % 10) as u8 as char));
        assert(t =~= b.push((ZERO + n % 10) as u8 as char));
        if m / 10 < n / 10 {
            lemma_decimal_keeps_order(m / 10, n / 10);
            if comes_before(a, b) {
                let k = choose|k: int|
                    0 <= k < a.len() && a.take(k) == b.take(k) && #[trigger] a[k] < #[trigger] b[k];
                assert(s.take(k) =~= a.take(k));
                assert(t.take(k) =~= b.take(k));
                assert(s[k] < t[k]);
            }
        } else {
            let k = a.len() as int;
            assert(s.take(k) =~= t.take(k));
            assert(s[k] < t[k]);
        }
    }
}

/// Appends a number in decimal notation.
pub fn push_u64(out: &mut String, n: u64)
    ensures
        final(out)@ == old(out)@ + chars_of(decimal(n as nat)),
{
    let mut rest: u64 = n;
    let mut digits: Vec<u8> = Vec::new();
    while rest >= 10
        invariant
            decimal(n as nat) == decimal(rest as nat) + digits@.reverse(),
        decreases rest,
    {
        let ghost before = digits@;
        let digit: u8 = ZERO + (rest % 10) as u8;
        digits.push(digit);
        proof {
            assert(digits@.reverse() =~= seq![digit] + before.reverse());
            assert(decimal(rest as nat) + before.reverse() =~= decimal((rest / 10) as nat) + (
            seq![digit] + before.reverse()));
        }
        rest = rest / 10;
    }
    let first: u8 = ZERO + rest as u8;
    out.push(first as char);
    let ghost all = decimal(n as nat);
    let ghost start = old(out)@;
    proof {
        assert(all =~= seq![first] + digits@.reverse());
        assert(out@ =~= start + chars_of(all.take(1)));
    }
    while digits.len() > 0
        invariant
            digits.len() < all.len(),
            all.skip(all.len() - digits.len()) == digits@.reverse(),
            out@ == start + chars_of(all.take(all.len() - digits.len())),
        decreases digits.len(),
    {
        let ghost before = digits@;
        let ghost k = all.len() - before.len();
        match digits.pop() {
            Some(digit) => {
                proof {
                    assert(all[k] == all.skip(k)[0]);
                    assert(all[k] == digit);
                    assert(all.skip(k + 1) =~= digits@.reverse()) by {
                        assert forall|i: int| 0 <= i < digits@.len() implies #[trigger] all.skip(
                            k + 1,
                        )[i] == digits@.reverse()[i] by {
                            assert(all.skip(k)[i + 1] == before.reverse()[i + 1]);
                        }
                    }
                    assert(chars_of(all.take(k)).push(digit as char) =~= chars_of(all.take(k + 1)));
                }
                out.push(digit as char);
            },
            None => {},
        }
    }
    assert(all.take(all.len() as int) =~= all);
}

} // verus!
