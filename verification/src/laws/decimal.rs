//! Laws of decimal notation.
use super::text::lemma_chars_of;
use crate::decimal::{
    all_digits, decimal, is_digit, lemma_decimal_is_canonical, lemma_value_of_decimal,
    push_u64, value,
};
use crate::text::chars_of;
use vstd::arithmetic::power::pow;
use vstd::prelude::*;

verus! {

/// The number that decimal digits denote by their places: a digit counts ten
/// times as much as the same digit one place to the right.
pub open spec fn number(t: Seq<char>) -> int
    decreases t.len(),
{
    if t.len() == 0 {
        0
    } else {
        (t[0] as int - '0' as int) * pow(10, (t.len() - 1) as nat) + number(t.skip(1))
    }
}

/// Whether a text is made of decimal digits alone.
pub open spec fn numeric(t: Seq<char>) -> bool {
    forall|i: int| 0 <= i < t.len() ==> '0' <= #[trigger] t[i] <= '9'
}

/// A digit at the right end counts once, and those before it ten times as much.
pub proof fn lemma_number_push(t: Seq<char>, c: char)
    ensures
        number(t.push(c)) == number(t) * 10 + (c as int - '0' as int),
    decreases t.len(),
{
    reveal(pow);
    let u = t.push(c);
    if t.len() == 0 {
        assert(u.skip(1) =~= seq![]);
        assert(number(u.skip(1)) == 0);
        assert(pow(10, 0) == 1);
        let d = c as int - '0' as int;
        assert(d * 1 == d);
        assert(number(u) == d * pow(10, 0) + number(u.skip(1)));
    } else {
        lemma_number_push(t.skip(1), c);
        assert(u.skip(1) =~= t.skip(1).push(c));
        let d = t[0] as int - '0' as int;
        let p = pow(10, (t.len() - 1) as nat);
        assert(pow(10, t.len()) == 10 * p);
        assert(d * (10 * p) == d * p * 10) by (nonlinear_arith);
        assert(number(u) == d * pow(10, t.len()) + number(u.skip(1)));
        assert(number(t) == d * p + number(t.skip(1)));
    }
}

/// What the digits denote by their places is what is read from them.
pub proof fn lemma_value_is_number(s: Seq<u8>)
    requires
        all_digits(s),
    ensures
        value(s) == number(chars_of(s)),
        numeric(chars_of(s)),
    decreases s.len(),
{
    assert forall|i: int| 0 <= i < s.len() implies '0' <= #[trigger] chars_of(s)[i] <= '9' by {
        assert(is_digit(s[i]));
    }
    if s.len() > 0 {
        let front = s.drop_last();
        assert(is_digit(s[s.len() - 1]));
        assert(all_digits(front)) by {
            assert forall|i: int| 0 <= i < front.len() implies is_digit(#[trigger] front[i]) by {
                assert(front[i] == s[i]);
            }
        }
        lemma_value_is_number(front);
        lemma_number_push(chars_of(front), s.last() as char);
        assert(chars_of(s) =~= chars_of(front).push(s.last() as char));
    } else {
        assert(chars_of(s) =~= seq![]);
    }
}

/// The notation of a number is the digits that denote it by their places,
/// without a leading zero.
pub proof fn lemma_decimal_denotes(n: nat)
    ensures
        numeric(chars_of(decimal(n))),
        number(chars_of(decimal(n))) == n,
        decimal(n).len() > 0,
        decimal(n).len() > 1 ==> chars_of(decimal(n))[0] != '0',
{
    lemma_value_of_decimal(n);
    lemma_decimal_is_canonical(n);
    lemma_value_is_number(decimal(n));
    lemma_chars_of(decimal(n));
}

/// Appending a number keeps what was there and adds the digits that denote the
/// number by their places, at least one, and no leading zero.
pub proof fn law_push_u64(out: &mut String, n: u64)
    requires
        call_ensures(push_u64, (out, n), ()),
    ensures
        ({
            let t = final(out)@.skip(old(out)@.len() as int);
            &&& final(out)@ == old(out)@ + t
            &&& t.len() > 0
            &&& numeric(t)
            &&& number(t) == n
            &&& t.len() > 1 ==> t[0] != '0'
        }),
{
    lemma_decimal_denotes(n as nat);
    assert(final(out)@.skip(old(out)@.len() as int) =~= chars_of(decimal(n as nat)));
}

/// Every number can be appended to every string.
pub proof fn law_numbers_are_taken(out: &mut String, n: u64)
    ensures
        call_requires(push_u64, (out, n)),
{
}

} // verus!
