//! Decimal digits: the characters `0` to `9`, the numbers they stand for, and
//! the decimal writing of a natural number, plain or padded with zeros.

use vstd::prelude::*;

verus! {

/// Whether `c` is one of the ten ASCII digits.
pub open spec fn is_digit(c: char) -> bool {
    '0' <= c && c <= '9'
}

/// The number a digit stands for.
pub open spec fn digit_value(c: char) -> nat
    recommends
        is_digit(c),
{
    (c as u32 - '0' as u32) as nat
}

/// The digit that stands for `d`, for `d` below ten.
pub open spec fn digit_char(d: nat) -> char
    recommends
        d < 10,
{
    if d == 0 {
        '0'
    } else if d == 1 {
        '1'
    } else if d == 2 {
        '2'
    } else if d == 3 {
        '3'
    } else if d == 4 {
        '4'
    } else if d == 5 {
        '5'
    } else if d == 6 {
        '6'
    } else if d == 7 {
        '7'
    } else if d == 8 {
        '8'
    } else {
        '9'
    }
}

/// Reads one character as a digit.
pub fn digit_of(c: char) -> (r: Option<u8>)
    ensures
        r == (if is_digit(c) {
            Some(digit_value(c) as u8)
        } else {
            None
        }),
{
    if c >= '0' && c <= '9' {
        Some((c as u32 - 48) as u8)
    } else {
        None
    }
}

/// The one-character text of a digit.
fn digit_text(d: u8) -> (r: &'static str)
    requires
        d < 10,
    ensures
        r@ == seq![digit_char(d as nat)],
{
    proof {
        reveal_strlit("0");
        reveal_strlit("1");
        reveal_strlit("2");
        reveal_strlit("3");
        reveal_strlit("4");
        reveal_strlit("5");
        reveal_strlit("6");
        reveal_strlit("7");
        reveal_strlit("8");
        reveal_strlit("9");
    }
    match d {
        0 => "0",
        1 => "1",
        2 => "2",
        3 => "3",
        4 => "4",
        5 => "5",
        6 => "6",
        7 => "7",
        8 => "8",
        _ => "9",
    }
}

/// Whether every character of `s` is a digit.
pub open spec fn all_digits(s: Seq<char>) -> bool {
    forall|i: int| 0 <= i < s.len() ==> is_digit(#[trigger] s[i])
}

/// The number that a run of digits writes in base ten, most significant
/// digit first. The empty run writes zero.
pub open spec fn digits_value(s: Seq<char>) -> nat
    decreases s.len(),
{
    if s.len() == 0 {
        0
    } else {
        digits_value(s.drop_last()) * 10 + digit_value(s.last())
    }
}

/// The decimal writing of `n` without leading zeros; zero is written `0`.
pub open spec fn decimal(n: nat) -> Seq<char>
    decreases n,
{
    if n < 10 {
        seq![digit_char(n)]
    } else {
        decimal(n / 10).push(digit_char(n % 10))
    }
}

/// The last `width` decimal digits of `n`, padded with zeros on the left.
pub open spec fn padded(n: nat, width: nat) -> Seq<char>
    decreases width,
{
    if width == 0 {
        Seq::<char>::empty()
    } else {
        padded(n / 10, (width - 1) as nat).push(digit_char(n % 10))
    }
}

/// Every digit character reads back as the number it was written for.
pub proof fn lemma_digit_round_trip(d: nat)
    requires
        d < 10,
    ensures
        is_digit(digit_char(d)),
        digit_value(digit_char(d)) == d,
{
}

/// The decimal writing of `n` is a non-empty run of digits whose value is `n`.
pub proof fn lemma_decimal_reads_back(n: nat)
    ensures
        decimal(n).len() >= 1,
        all_digits(decimal(n)),
        digits_value(decimal(n)) == n,
    decreases n,
{
    lemma_digit_round_trip(n % 10);
    if n < 10 {
        let s = decimal(n);
        assert(s.drop_last() =~= Seq::<char>::empty());
        assert(digits_value(s.drop_last()) == 0);
    } else {
        lemma_decimal_reads_back(n / 10);
        let s = decimal(n);
        assert(s.drop_last() =~= decimal(n / 10));
        assert(s.last() == digit_char(n % 10));
    }
}

/// The padded writing of a number below ten is its digit, and of a number
/// below a hundred its two digits; each reads back as the number.
pub proof fn lemma_padded_two(n: nat)
    requires
        n < 100,
    ensures
        padded(n, 2) == seq![digit_char(n / 10), digit_char(n % 10)],
        all_digits(padded(n, 2)),
        digits_value(padded(n, 2)) == n,
{
    let s = padded(n, 2);
    assert(padded(n / 100, 0) =~= Seq::<char>::empty());
    assert(padded(n / 10, 1) =~= seq![digit_char((n / 10) % 10)]);
    assert(s =~= seq![digit_char(n / 10), digit_char(n % 10)]);
    lemma_digit_round_trip(n / 10);
    lemma_digit_round_trip(n % 10);
    lemma_two_digits_value(s);
}

/// The padded writing of a number below ten thousand is its four digits,
/// and reads back as the number.
pub proof fn lemma_padded_four(n: nat)
    requires
        n < 10000,
    ensures
        padded(n, 4) == seq![
            digit_char(n / 1000),
            digit_char((n / 100) % 10),
            digit_char((n / 10) % 10),
            digit_char(n % 10),
        ],
        all_digits(padded(n, 4)),
        digits_value(padded(n, 4)) == n,
{
    let s = padded(n, 4);
    lemma_padded_two(n / 100);
    assert(padded(n / 10, 3) =~= padded(n / 100, 2).push(digit_char((n / 10) % 10)));
    assert(s =~= seq![
        digit_char(n / 1000),
        digit_char((n / 100) % 10),
        digit_char((n / 10) % 10),
        digit_char(n % 10),
    ]);
    lemma_digit_round_trip(n / 1000);
    lemma_digit_round_trip((n / 100) % 10);
    lemma_digit_round_trip((n / 10) % 10);
    lemma_digit_round_trip(n % 10);
    lemma_four_digits_value(s);
}

/// Whether the text `a` comes before the text `b` in the order of a
/// dictionary: at the first place where they differ `a` has the smaller
/// character, or `a` ends there and `b` goes on.
pub open spec fn text_before(a: Seq<char>, b: Seq<char>) -> bool {
    exists|k: int|
        0 <= k <= a.len() && k <= b.len() && #[trigger] a.take(k) == b.take(k) && (if k
            == a.len() {
            k < b.len()
        } else {
            k < b.len() && a[k] < b[k]
        })
}

/// Smaller digits are written with smaller characters.
pub proof fn lemma_digit_order(d: nat, e: nat)
    requires
        d < 10,
        e < 10,
    ensures
        (digit_char(d) < digit_char(e)) == (d < e),
        (digit_char(d) == digit_char(e)) == (d == e),
        digit_char(d) != '-',
{
}

/// The value of a run of two digits.
pub proof fn lemma_two_digits_value(s: Seq<char>)
    requires
        s.len() == 2,
        all_digits(s),
    ensures
        digits_value(s) == 10 * digit_value(s[0]) + digit_value(s[1]),
{
    let s1 = s.drop_last();
    assert(s1.drop_last() =~= Seq::<char>::empty());
    assert(digits_value(s1.drop_last()) == 0);
    assert(s1.last() == s[0]);
    assert(digits_value(s1) == digits_value(s1.drop_last()) * 10 + digit_value(s1.last()));
    assert(digits_value(s) == digits_value(s1) * 10 + digit_value(s.last()));
}

/// The value of a run of four digits.
pub proof fn lemma_four_digits_value(s: Seq<char>)
    requires
        s.len() == 4,
        all_digits(s),
    ensures
        digits_value(s) == 1000 * digit_value(s[0]) + 100 * digit_value(s[1]) + 10 * digit_value(
            s[2],
        ) + digit_value(s[3]),
{
    let s3 = s.drop_last();
    let s2 = s3.drop_last();
    assert(s2[0] == s[0] && s2[1] == s[1]);
    assert(is_digit(s[0]) && is_digit(s[1]));
    lemma_two_digits_value(s2);
    assert(s3.last() == s[2]);
    assert(digits_value(s3) == digits_value(s2) * 10 + digit_value(s3.last()));
    assert(digits_value(s) == digits_value(s3) * 10 + digit_value(s.last()));
}

/// Appends the decimal writing of `n` to `out`.
pub fn push_decimal(out: &mut String, n: u128)
    ensures
        final(out)@ == old(out)@ + decimal(n as nat),
    decreases n,
{
    if n >= 10 {
        push_decimal(out, n / 10);
    }
    out.append(digit_text((n % 10) as u8));
}

/// Appends the last `width` digits of `n` to `out`, zero-padded.
pub fn push_padded(out: &mut String, n: u32, width: u32)
    ensures
        final(out)@ == old(out)@ + padded(n as nat, width as nat),
    decreases width,
{
    if width > 0 {
        push_padded(out, n / 10, width - 1);
        out.append(digit_text((n % 10) as u8));
    }
}

} // verus!
