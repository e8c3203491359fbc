//! Money as a whole number of cents, read from and written as decimal text.

use crate::digits::{
    all_digits, decimal, digit_of, digit_value, digits_value, is_digit, lemma_decimal_reads_back,
    lemma_digit_round_trip, padded, push_decimal, push_padded,
};
use crate::error::LedgerError;
use vstd::prelude::*;

verus! {

/// The cents written by a run of digits without a fraction, if `s` is one.
pub open spec fn whole_cents(s: Seq<char>) -> Option<nat> {
    if s.len() >= 1 && all_digits(s) {
        Some(100 * digits_value(s))
    } else {
        None
    }
}

/// The cents that an amount writes: digits, optionally followed by a point and
/// one or two more digits. Anything else, a sign or an exponent included,
/// writes no amount.
///
/// A fraction has one or two digits, so the point of a valid amount is its
/// second or third character from the end.
pub open spec fn parse_cents(s: Seq<char>) -> Option<nat> {
    let n = s.len() as int;
    if n >= 2 && s[n - 2] == '.' {
        let whole = whole_cents(s.subrange(0, n - 2));
        if whole is Some && is_digit(s[n - 1]) {
            Some(whole->0 + 10 * digit_value(s[n - 1]))
        } else {
            None
        }
    } else if n >= 3 && s[n - 3] == '.' {
        let whole = whole_cents(s.subrange(0, n - 3));
        if whole is Some && is_digit(s[n - 2]) && is_digit(s[n - 1]) {
            Some(whole->0 + 10 * digit_value(s[n - 2]) + digit_value(s[n - 1]))
        } else {
            None
        }
    } else {
        whole_cents(s)
    }
}

/// The text of an amount of cents: the whole units, a point, and the cents
/// below one unit as two digits.
pub open spec fn format_cents(cents: nat) -> Seq<char> {
    decimal(cents / 100) + seq!['.'] + padded(cents % 100, 2)
}

/// An amount of money, held as a count of hundredths.
#[derive(Clone, Copy, Debug, PartialEq, Eq, Structural)]
pub struct Money {
    cents: u32,
}

impl View for Money {
    type V = nat;

    closed spec fn view(&self) -> nat {
        self.cents as nat
    }
}

impl Money {
    /// The amount of `cents` hundredths.
    pub fn from_cents(cents: u32) -> (m: Money)
        ensures
            m@ == cents,
    {
        Money { cents }
    }

    /// The amount as a count of hundredths.
    pub fn to_cents(&self) -> (cents: u32)
        ensures
            cents == self@,
    {
        self.cents
    }

    /// Reads an amount from decimal text. The text is rejected when it is not
    /// of the accepted shape, and when it writes more cents than a `u32`
    /// holds. Zero is accepted here.
    pub fn parse(s: &str) -> (r: Result<Money, LedgerError>)
        ensures
            match r {
                Ok(m) => parse_cents(s@) == Some(m@),
                Err(e) => e == LedgerError::InvalidAmount && (parse_cents(s@) is None
                    || parse_cents(s@)->0 > u32::MAX),
            },
    {
        let n = s.unicode_len();
        let mut whole_len: usize = n;
        let mut fraction: u64 = 0;
        if n >= 2 && s.get_char(n - 2) == '.' {
            match digit_of(s.get_char(n - 1)) {
                Some(d) => {
                    whole_len = n - 2;
                    fraction = 10 * (d as u64);
                },
                None => {
                    return Err(LedgerError::InvalidAmount);
                },
            }
        } else if n >= 3 && s.get_char(n - 3) == '.' {
            match (digit_of(s.get_char(n - 2)), digit_of(s.get_char(n - 1))) {
                (Some(d1), Some(d2)) => {
                    whole_len = n - 3;
                    fraction = 10 * (d1 as u64) + (d2 as u64);
                },
                _ => {
                    return Err(LedgerError::InvalidAmount);
                },
            }
        }
        if whole_len == 0 {
            return Err(LedgerError::InvalidAmount);
        }
        let ghost whole = s@.subrange(0, whole_len as int);
        assert(whole_len == n ==> whole =~= s@);
        assert(parse_cents(s@) == (if whole_cents(whole) is Some {
            Some(whole_cents(whole)->0 + fraction as nat)
        } else {
            None
        }));
        let mut units: u64 = 0;
        let mut too_large = false;
        let mut i: usize = 0;
        while i < whole_len
            invariant
                i <= whole_len <= n == s@.len(),
                whole == s@.subrange(0, whole_len as int),
                whole_cents(whole) is None ==> parse_cents(s@) is None,
                all_digits(whole.subrange(0, i as int)),
                !too_large ==> units == digits_value(whole.subrange(0, i as int)) && units
                    <= u32::MAX,
                too_large ==> digits_value(whole.subrange(0, i as int)) > u32::MAX,
            decreases whole_len - i,
        {
            let c = s.get_char(i);
            let ghost before = whole.subrange(0, i as int);
            let ghost after = whole.subrange(0, i + 1);
            assert(after.drop_last() =~= before);
            assert(after.last() == c);
            match digit_of(c) {
                Some(d) => {
                    if !too_large {
                        units = units * 10 + d as u64;
                        if units > u32::MAX as u64 {
                            too_large = true;
                        }
                    }
                },
                None => {
                    assert(!is_digit(whole[i as int]));
                    return Err(LedgerError::InvalidAmount);
                },
            }
            i += 1;
        }
        assert(whole.subrange(0, whole_len as int) =~= whole);
        if too_large {
            return Err(LedgerError::InvalidAmount);
        }
        let cents: u64 = units * 100 + fraction;
        if cents > u32::MAX as u64 {
            return Err(LedgerError::InvalidAmount);
        }
        Ok(Money { cents: cents as u32 })
    }

    /// Writes the amount as whole units, a point and two digits.
    pub fn format(&self) -> (text: String)
        ensures
            text@ == format_cents(self@),
    {
        format_amount(self.cents as u128)
    }
}

/// Writes `cents` hundredths as whole units, a point and two digits.
pub fn format_amount(cents: u128) -> (text: String)
    ensures
        text@ == format_cents(cents as nat),
{
    let mut text = String::new();
    push_decimal(&mut text, cents / 100);
    proof {
        reveal_strlit(".");
    }
    text.append(".");
    push_padded(&mut text, (cents % 100) as u32, 2);
    assert(text@ =~= format_cents(cents as nat));
    text
}

/// An amount written as whole units, a point and two digits of cents reads
/// back as those cents, and those cents are written as that same text.
pub proof fn lemma_cent_round_trip(units: nat, below: nat)
    requires
        below < 100,
    ensures
        parse_cents(decimal(units) + seq!['.'] + padded(below, 2)) == Some(100 * units + below),
        format_cents(100 * units + below) == decimal(units) + seq!['.'] + padded(below, 2),
{
    let s = decimal(units) + seq!['.'] + padded(below, 2);
    let n = s.len() as int;
    lemma_decimal_reads_back(units);
    lemma_digit_round_trip(below % 10);
    lemma_digit_round_trip(below / 10);
    let frac = padded(below, 2);
    assert(frac =~= seq![crate::digits::digit_char(below / 10), crate::digits::digit_char(below % 10)]) by {
        assert(padded(below / 10, 1) =~= seq![crate::digits::digit_char(below / 10)]) by {
            assert(padded(below / 100, 0) =~= Seq::<char>::empty());
            assert((below / 10) % 10 == below / 10);
        }
    }
    assert(n == decimal(units).len() + 3);
    assert(s[n - 3] == '.');
    assert(s[n - 2] == crate::digits::digit_char(below / 10));
    assert(s[n - 1] == crate::digits::digit_char(below % 10));
    assert(s.subrange(0, n - 3) =~= decimal(units));
    assert((100 * units + below) / 100 == units);
    assert((100 * units + below) % 100 == below);
}

/// Every amount of cents, once written, reads back as itself.
pub proof fn lemma_format_parse(cents: nat)
    ensures
        parse_cents(format_cents(cents)) == Some(cents),
{
    lemma_cent_round_trip(cents / 100, cents % 100);
}

} // verus!
