//! Decimal numbers in text: reading a number such as `74.13`, and writing a
//! natural number in decimal digits.
//!
//! A number is a run of digits, optionally followed by a point and another
//! run of digits, with at least one digit in all. There is no sign and no
//! exponent. It is read exactly, however many digits it has: as the whole
//! number that its digits write, and the count of digits behind the point.

use vstd::prelude::*;
use vstd::slice::slice_subrange;
use crate::digits::{are_digits, value};
use crate::text::{
    before_first, contains, find, first_occurrence, lemma_first_occurrence_exists, occurs_at,
    take_before_first,
};

verus! {

/// Ten to the power `e`.
pub open spec fn pow10(e: nat) -> nat
    decreases e,
{
    if e == 0 {
        1
    } else {
        10 * pow10((e - 1) as nat)
    }
}

/// `c` is one of `0` to `9`.
pub open spec fn is_digit(c: char) -> bool {
    0x30 <= c as u32 <= 0x39
}

/// The number that the digit `c` stands for.
pub open spec fn digit_value(c: char) -> nat {
    (c as u32 - 0x30) as nat
}

/// Every character of `s` is a digit.
pub open spec fn all_digits(s: Seq<char>) -> bool {
    forall|i: int| 0 <= i < s.len() ==> is_digit(#[trigger] s[i])
}

/// The number that the digit string `s` denotes; 0 for the empty string.
pub open spec fn digits_value(s: Seq<char>) -> nat
    decreases s.len(),
{
    if s.len() == 0 {
        0
    } else {
        digits_value(s.drop_last()) * 10 + digit_value(s.last())
    }
}

/// The decimal point.
pub open spec fn point() -> Seq<char> {
    seq!['.']
}

/// The text before the first decimal point: the whole part of a number.
pub open spec fn whole_digits(s: Seq<char>) -> Seq<char> {
    before_first(s, point())
}

/// The text after the first decimal point: the fraction of a number.
pub open spec fn fraction_digits(s: Seq<char>) -> Seq<char> {
    if contains(s, point()) {
        s.skip(first_occurrence(s, point()) + 1)
    } else {
        Seq::empty()
    }
}

/// `s` is a decimal number: digits, then optionally a point and digits, with
/// at least one digit in all.
pub open spec fn is_decimal(s: Seq<char>) -> bool {
    &&& all_digits(whole_digits(s))
    &&& all_digits(fraction_digits(s))
    &&& whole_digits(s).len() + fraction_digits(s).len() > 0
}

/// The whole number that the digits of the decimal number `s` write, the
/// point left out: the value of `s` times `10^decimal_scale(s)`.
pub open spec fn decimal_number(s: Seq<char>) -> nat {
    digits_value(whole_digits(s) + fraction_digits(s))
}

/// The count of digits behind the point of the decimal number `s`.
pub open spec fn decimal_scale(s: Seq<char>) -> nat {
    fraction_digits(s).len()
}

/// The numbers that the digits `c` stand for, the last digit first.
pub open spec fn reversed_digits(c: Seq<char>) -> Seq<u8> {
    Seq::new(c.len(), |i: int| digit_value(c[c.len() - 1 - i]) as u8)
}

/// The digit that writes the number `d`, for `d` below ten.
pub open spec fn digit_char(d: nat) -> char {
    (0x30 + d) as char
}

/// The decimal digits of `n`, without leading zeros (`0` itself is `"0"`).
pub open spec fn decimal_text(n: nat) -> Seq<char>
    decreases n,
{
    if n < 10 {
        seq![digit_char(n)]
    } else {
        decimal_text(n / 10).push(digit_char(n % 10))
    }
}

/// Powers of ten multiply as their exponents add.
pub proof fn lemma_pow10_adds(a: nat, b: nat)
    ensures
        pow10(a + b) == pow10(a) * pow10(b),
        pow10(a) > 0,
    decreases a,
{
    if a == 0 {
        assert(pow10(0 + b) == 1 * pow10(b));
    } else {
        lemma_pow10_adds((a - 1) as nat, b);
        assert(pow10(a + b) == 10 * pow10((a + b - 1) as nat));
        assert(10 * (pow10((a - 1) as nat) * pow10(b)) == (10 * pow10((a - 1) as nat)) * pow10(b))
            by (nonlinear_arith);
    }
}

/// A larger exponent gives no smaller power of ten.
pub proof fn lemma_pow10_increases(a: nat, b: nat)
    requires
        a <= b,
    ensures
        1 <= pow10(a) <= pow10(b),
{
    lemma_pow10_adds(a, (b - a) as nat);
    lemma_pow10_adds((b - a) as nat, 0);
    assert(pow10(a) * 1 <= pow10(a) * pow10((b - a) as nat)) by (nonlinear_arith)
        requires
            pow10(a) > 0,
            pow10((b - a) as nat) >= 1,
    ;
}

/// The value of a digit string splits at any point into the value of the
/// front, shifted, plus the value of the back.
pub proof fn lemma_digits_value_split(a: Seq<char>, b: Seq<char>)
    ensures
        digits_value(a + b) == digits_value(a) * pow10(b.len()) + digits_value(b),
    decreases b.len(),
{
    if b.len() == 0 {
        assert(a + b =~= a);
        assert(digits_value(a) * pow10(0) == digits_value(a)) by (nonlinear_arith)
            requires
                pow10(0) == 1,
        ;
    } else {
        lemma_digits_value_split(a, b.drop_last());
        assert((a + b).drop_last() =~= a + b.drop_last());
        assert((a + b).last() == b.last());
        let x = digits_value(a) as int;
        let p = pow10(b.drop_last().len()) as int;
        let y = digits_value(b.drop_last()) as int;
        assert(pow10(b.len()) == 10 * p);
        assert(digits_value(a + b.drop_last()) == x * p + y);
        assert(digits_value(a + b) == digits_value(a + b.drop_last()) * 10 + digit_value(b.last()));
        assert((x * p + y) * 10 == x * (10 * p) + y * 10) by (nonlinear_arith);
        assert(digits_value(b) == y * 10 + digit_value(b.last()));
    }
}

/// A digit string, turned round, writes the same number with its least
/// significant digit first.
pub proof fn lemma_reversed_value(c: Seq<char>)
    requires
        all_digits(c),
    ensures
        are_digits(reversed_digits(c)),
        value(reversed_digits(c)) == digits_value(c),
    decreases c.len(),
{
    let r = reversed_digits(c);
    assert forall|i: int| 0 <= i < r.len() implies #[trigger] r[i] < 10 by {
        assert(is_digit(c[c.len() - 1 - i]));
    }
    if c.len() > 0 {
        let rest = c.skip(1);
        lemma_reversed_value(rest);
        assert(r.drop_last() =~= reversed_digits(rest));
        assert(r.last() == digit_value(c[0]) as u8);
        assert(is_digit(c[0]));
        let first = seq![c[0]];
        assert(first + rest =~= c);
        lemma_digits_value_split(first, rest);
        assert(first.drop_last() =~= Seq::<char>::empty());
        assert(first.last() == c[0]);
        assert(digits_value(first.drop_last()) == 0);
        assert(digits_value(first) == digit_value(c[0]));
    }
}

/// Every character of a decimal number is a digit or the point.
pub proof fn lemma_decimal_chars(s: Seq<char>)
    requires
        is_decimal(s),
    ensures
        forall|i: int| 0 <= i < s.len() ==> is_digit(#[trigger] s[i]) || s[i] == '.',
{
    if contains(s, point()) {
        let i = choose|i: int| occurs_at(s, point(), i);
        lemma_first_occurrence_exists(s, point(), i);
        let p = first_occurrence(s, point());
        assert(occurs_at(s, point(), p));
        assert(s[p + 0] == point()[0]);
        assert forall|i: int| 0 <= i < s.len() implies is_digit(#[trigger] s[i]) || s[i] == '.' by {
            if i < p {
                assert(whole_digits(s)[i] == s[i]);
            } else if i > p {
                assert(fraction_digits(s)[i - p - 1] == s[i]);
            }
        }
    }
}

/// A number is written with digits only.
pub proof fn lemma_decimal_text_is_digits(n: nat)
    ensures
        all_digits(decimal_text(n)),
        decimal_text(n).len() > 0,
    decreases n,
{
    if n >= 10 {
        lemma_decimal_text_is_digits(n / 10);
        let front = decimal_text(n / 10);
        let text = decimal_text(n);
        assert forall|i: int| 0 <= i < text.len() implies is_digit(#[trigger] text[i]) by {
            if i < front.len() {
                assert(text[i] == front[i]);
            }
        }
    }
}

/// Tells whether `c` is a digit, and which.
pub fn digit_of(c: char) -> (r: Option<u8>)
    ensures
        r.is_some() == is_digit(c),
        r.is_some() ==> r.unwrap() == digit_value(c),
{
    let n: u32 = c as u32;
    if 0x30 <= n && n <= 0x39 {
        Some((n - 0x30) as u8)
    } else {
        None
    }
}

/// Reads a run of digits as a number. Returns `None` where a character is
/// no digit, or where the number does not fit.
pub fn parse_digits(s: &[char]) -> (r: Option<u128>)
    ensures
        r.is_some() == (all_digits(s@) && digits_value(s@) <= u128::MAX),
        r.is_some() ==> r.unwrap() == digits_value(s@),
{
    let mut acc: u128 = 0;
    let mut i: usize = 0;
    assert(s@.take(0) =~= Seq::<char>::empty());
    while i < s.len()
        invariant
            i <= s.len(),
            all_digits(s@.take(i as int)),
            acc == digits_value(s@.take(i as int)),
        decreases s.len() - i,
    {
        let ghost front = s@.take(i as int);
        let ghost next = s@.take(i + 1);
        proof {
            assert(next.drop_last() =~= front);
            assert(next.last() == s@[i as int]);
            assert(next + s@.skip(i + 1) =~= s@);
            lemma_digits_value_split(next, s@.skip(i + 1));
            lemma_pow10_increases(0, s@.skip(i + 1).len());
            assert(digits_value(next) * 1 <= digits_value(next) * pow10(s@.skip(i + 1).len()))
                by (nonlinear_arith)
                requires
                    pow10(s@.skip(i + 1).len()) >= 1,
            ;
        }
        let d = match digit_of(s[i]) {
            Some(d) => d,
            None => {
                return None;
            },
        };
        let shifted = match acc.checked_mul(10) {
            Some(v) => v,
            None => {
                return None;
            },
        };
        acc = match shifted.checked_add(d as u128) {
            Some(v) => v,
            None => {
                return None;
            },
        };
        i += 1;
        assert forall|j: int| 0 <= j < next.len() implies is_digit(#[trigger] next[j]) by {
            if j < front.len() {
                assert(front[j] == next[j]);
            }
        }
    }
    assert(s@.take(s.len() as int) =~= s@);
    Some(acc)
}

/// Reads a run of digits: the numbers that they stand for, the last digit
/// first. Returns `None` where a character is no digit.
pub fn read_digits(cs: &[char]) -> (r: Option<Vec<u8>>)
    ensures
        r.is_some() == all_digits(cs@),
        r.is_some() ==> r.unwrap()@ == reversed_digits(cs@),
{
    let n = cs.len();
    let mut out: Vec<u8> = Vec::new();
    let mut i: usize = n;
    while i > 0
        invariant
            i <= n,
            n == cs.len(),
            out@.len() == n - i,
            forall|j: int| 0 <= j < out@.len() ==> #[trigger] out@[j] == digit_value(cs@[n - 1 - j]),
            forall|j: int| i <= j < n ==> is_digit(#[trigger] cs@[j]),
        decreases i,
    {
        match digit_of(cs[i - 1]) {
            Some(d) => {
                out.push(d);
            },
            None => {
                return None;
            },
        }
        i -= 1;
    }
    assert(out@ =~= reversed_digits(cs@));
    Some(out)
}

/// Reads a decimal number: the digits of the whole number that it writes
/// with the point left out, the least significant first, and the count of
/// digits behind the point. Returns `None` where `s` is no decimal number.
pub fn parse_decimal(s: &[char]) -> (r: Option<(Vec<u8>, usize)>)
    ensures
        r.is_some() == is_decimal(s@),
        r.is_some() ==> are_digits(r.unwrap().0@) && value(r.unwrap().0@) == decimal_number(s@)
            && r.unwrap().1 == decimal_scale(s@),
{
    let dot = ['.'];
    assert(dot@ =~= point());
    let whole = take_before_first(s, &dot);
    let frac = match find(s, &dot) {
        Some(i) => {
            assert(occurs_at(s@, point(), i as int));
            let n = s.len();
            slice_subrange(s, i + 1, n)
        },
        None => slice_subrange(s, 0, 0),
    };
    assert(whole@ == whole_digits(s@));
    assert(frac@ =~= fraction_digits(s@));
    if whole.len() == 0 && frac.len() == 0 {
        return None;
    }
    let mut digits = match read_digits(frac) {
        Some(d) => d,
        None => {
            return None;
        },
    };
    let mut high = match read_digits(whole) {
        Some(d) => d,
        None => {
            return None;
        },
    };
    digits.append(&mut high);
    proof {
        let all = whole@ + frac@;
        assert forall|i: int| 0 <= i < all.len() implies is_digit(#[trigger] all[i]) by {
            if i < whole@.len() {
                assert(all[i] == whole@[i]);
            } else {
                assert(all[i] == frac@[i - whole@.len()]);
            }
        }
        assert(digits@ =~= reversed_digits(all));
        lemma_reversed_value(all);
    }
    Some((digits, frac.len()))
}

/// The digit that writes `d`.
pub fn digit_to_char(d: u8) -> (c: char)
    requires
        d < 10,
    ensures
        c == digit_char(d as nat),
{
    (0x30 + d) as char
}

/// Appends the decimal digits of `n` to `out`.
pub fn push_decimal(out: &mut String, n: u128)
    ensures
        final(out)@ == old(out)@ + decimal_text(n as nat),
    decreases n,
{
    if n >= 10 {
        push_decimal(out, n / 10);
    }
    out.push(digit_to_char((n % 10) as u8));
    proof {
        if n >= 10 {
            assert(old(out)@ + decimal_text(n as nat) =~= (old(out)@ + decimal_text(
                (n / 10) as nat,
            )).push(digit_char((n % 10) as nat)));
        } else {
            assert(old(out)@ + decimal_text(n as nat) =~= old(out)@.push(digit_char(n as nat)));
        }
    }
}

} // verus!
