//! Natural numbers of any size, held as decimal digits with the least
//! significant digit first.

use vstd::prelude::*;
use crate::decimal::{decimal_text, digit_char, digit_to_char, lemma_pow10_adds, pow10};

verus! {

/// Every element of `d` is a decimal digit.
pub open spec fn are_digits(d: Seq<u8>) -> bool {
    forall|i: int| 0 <= i < d.len() ==> #[trigger] d[i] < 10
}

/// The number that the digits `d` write, the least significant first.
pub open spec fn value(d: Seq<u8>) -> nat
    decreases d.len(),
{
    if d.len() == 0 {
        0
    } else {
        value(d.drop_last()) + d.last() as nat * pow10((d.len() - 1) as nat)
    }
}

/// The number that the lowest `i` digits of `d` write.
pub open spec fn low(d: Seq<u8>, i: int) -> nat {
    value(
        d.take(
            if i <= d.len() {
                i
            } else {
                d.len() as int
            },
        ),
    )
}

/// The digit of `d` at position `i`; zero above the highest.
pub open spec fn digit_at(d: Seq<u8>, i: int) -> nat {
    if 0 <= i < d.len() {
        d[i] as nat
    } else {
        0
    }
}

/// `n` digits write a number below `10^n`.
pub proof fn lemma_value_bound(d: Seq<u8>)
    requires
        are_digits(d),
    ensures
        value(d) < pow10(d.len()),
    decreases d.len(),
{
    if d.len() > 0 {
        lemma_value_bound(d.drop_last());
        let p = pow10((d.len() - 1) as nat) as int;
        let x = d.last() as int;
        assert(d[d.len() - 1] < 10);
        assert(x * p <= 9 * p) by (nonlinear_arith)
            requires
                0 <= x <= 9,
                p >= 0,
        ;
    }
}

/// The digits of two numbers, one run behind the other, write the first
/// number plus the second shifted by the length of the first.
pub proof fn lemma_value_concat(a: Seq<u8>, b: Seq<u8>)
    ensures
        value(a + b) == value(a) + pow10(a.len()) * value(b),
    decreases b.len(),
{
    if b.len() == 0 {
        assert(a + b =~= a);
        assert(pow10(a.len()) * 0 == 0) by (nonlinear_arith);
    } else {
        lemma_value_concat(a, b.drop_last());
        assert((a + b).drop_last() =~= a + b.drop_last());
        assert((a + b).last() == b.last());
        lemma_pow10_adds(a.len(), (b.len() - 1) as nat);
        let pa = pow10(a.len()) as int;
        let pb = pow10((b.len() - 1) as nat) as int;
        let x = b.last() as int;
        let y = value(b.drop_last()) as int;
        assert(pow10((a.len() + b.len() - 1) as nat) == pa * pb);
        assert(pa * y + x * (pa * pb) == pa * (y + x * pb)) by (nonlinear_arith);
    }
}

/// A number splits at any position into its low digits and its high
/// digits: the high digits are the number divided by the power of ten of
/// the position, the low digits are the remainder.
pub proof fn lemma_value_split(d: Seq<u8>, k: int)
    requires
        are_digits(d),
        0 <= k <= d.len(),
    ensures
        value(d) == value(d.take(k)) + pow10(k as nat) * value(d.skip(k)),
        value(d.take(k)) < pow10(k as nat),
        value(d.skip(k)) == value(d) / pow10(k as nat),
        value(d.take(k)) == value(d) % pow10(k as nat),
{
    assert(d.take(k) + d.skip(k) =~= d);
    lemma_value_concat(d.take(k), d.skip(k));
    lemma_value_bound(d.take(k));
    let p = pow10(k as nat) as int;
    let q = value(d.skip(k)) as int;
    let r = value(d.take(k)) as int;
    assert(p * q == q * p) by (nonlinear_arith);
    vstd::arithmetic::div_mod::lemma_fundamental_div_mod_converse(value(d) as int, p, q, r);
}

/// The low digits grow by one digit at a time.
pub proof fn lemma_low_step(d: Seq<u8>, i: int)
    requires
        0 <= i,
    ensures
        low(d, i + 1) == low(d, i) + digit_at(d, i) * pow10(i as nat),
{
    if i < d.len() {
        assert(d.take(i + 1).drop_last() =~= d.take(i));
    } else {
        assert(0 * pow10(i as nat) == 0) by (nonlinear_arith);
    }
}

/// A zero above the highest digit changes nothing.
pub proof fn lemma_value_leading_zero(d: Seq<u8>)
    ensures
        value(d.push(0)) == value(d),
{
    assert(d.push(0).drop_last() =~= d);
    assert(0 * pow10(d.len()) == 0) by (nonlinear_arith);
}

/// Digits that are all zero write zero.
pub proof fn lemma_value_zeros(d: Seq<u8>)
    requires
        forall|i: int| 0 <= i < d.len() ==> #[trigger] d[i] == 0,
    ensures
        value(d) == 0,
    decreases d.len(),
{
    if d.len() > 0 {
        lemma_value_zeros(d.drop_last());
        assert(d[d.len() - 1] == 0);
        assert(0 * pow10((d.len() - 1) as nat) == 0) by (nonlinear_arith);
    }
}

/// A single digit writes itself.
pub proof fn lemma_value_single(x: u8)
    ensures
        value(seq![x]) == x,
{
    let d = seq![x];
    assert(d.drop_last() =~= Seq::<u8>::empty());
    assert(value(d.drop_last()) == 0);
    assert(d.last() == x);
    assert(pow10(0) == 1);
    assert(x as nat * pow10(0) == x) by (nonlinear_arith)
        requires
            pow10(0) == 1,
    ;
}

/// Of a number of two or more digits whose highest is not zero, the text is
/// that of the number without its lowest digit, followed by that digit.
pub proof fn lemma_text_step(d: Seq<u8>)
    requires
        are_digits(d),
        d.len() >= 2,
        d.last() != 0,
    ensures
        decimal_text(value(d)) == decimal_text(value(d.skip(1))).push(digit_char(d[0] as nat)),
        value(d.skip(1)) >= 1,
{
    lemma_value_split(d, 1);
    assert(d.take(1) =~= seq![d[0]]);
    lemma_value_single(d[0]);
    assert(pow10(1) == 10) by {
        assert(pow10(0) == 1);
    }
    let high = d.skip(1);
    assert(high.last() == d.last());
    lemma_pow10_adds((high.len() - 1) as nat, 0);
    let x = high.last() as int;
    let p = pow10((high.len() - 1) as nat) as int;
    assert(x * p >= 1) by (nonlinear_arith)
        requires
            x >= 1,
            p >= 1,
    ;
}

/// The digits of `n`.
pub fn from_u128(n: u128) -> (r: Vec<u8>)
    ensures
        are_digits(r@),
        value(r@) == n,
{
    let mut r: Vec<u8> = Vec::new();
    let mut rest: u128 = n;
    assert(rest * pow10(0) == rest) by (nonlinear_arith)
        requires
            pow10(0) == 1,
    ;
    while rest > 0
        invariant
            are_digits(r@),
            value(r@) + rest * pow10(r@.len()) == n,
        decreases rest,
    {
        let ghost before = r@;
        let ghost p = pow10(before.len()) as int;
        let digit = (rest % 10) as u8;
        r.push(digit);
        proof {
            assert(r@.drop_last() =~= before);
            assert(pow10(r@.len()) == 10 * p);
            let x = rest as int;
            assert((x % 10) * p + (x / 10) * (10 * p) == x * p) by (nonlinear_arith)
                requires
                    x == 10 * (x / 10) + x % 10,
            ;
        }
        rest = rest / 10;
    }
    assert(0 * pow10(r@.len()) == 0) by (nonlinear_arith);
    r
}

/// The digits of `d` times ten to the power `e`: `e` zeros below `d`.
pub fn shifted(d: &[u8], e: usize) -> (r: Vec<u8>)
    requires
        are_digits(d@),
    ensures
        are_digits(r@),
        value(r@) == value(d@) * pow10(e as nat),
{
    let mut r: Vec<u8> = Vec::new();
    let mut i: usize = 0;
    while i < e
        invariant
            i <= e,
            r@.len() == i,
            forall|j: int| 0 <= j < r@.len() ==> #[trigger] r@[j] == 0,
        decreases e - i,
    {
        r.push(0);
        i += 1;
    }
    let ghost zeros = r@;
    let mut k: usize = 0;
    while k < d.len()
        invariant
            k <= d.len(),
            r@ == zeros + d@.take(k as int),
        decreases d.len() - k,
    {
        r.push(d[k]);
        k += 1;
        assert(r@ =~= zeros + d@.take(k as int));
    }
    proof {
        assert(d@.take(d.len() as int) =~= d@);
        lemma_value_zeros(zeros);
        lemma_value_concat(zeros, d@);
        assert(pow10(e as nat) * value(d@) == value(d@) * pow10(e as nat)) by (nonlinear_arith);
    }
    r
}

/// The digits of the sum of two numbers.
pub fn sum_digits(a: &[u8], b: &[u8]) -> (r: Vec<u8>)
    requires
        are_digits(a@),
        are_digits(b@),
    ensures
        are_digits(r@),
        value(r@) == value(a@) + value(b@),
{
    let n = if a.len() > b.len() {
        a.len()
    } else {
        b.len()
    };
    let mut r: Vec<u8> = Vec::new();
    let mut carry: u8 = 0;
    let mut i: usize = 0;
    assert(a@.take(0) =~= Seq::<u8>::empty());
    assert(b@.take(0) =~= Seq::<u8>::empty());
    assert(0 * pow10(0) == 0) by (nonlinear_arith);
    while i < n
        invariant
            i <= n,
            n >= a.len(),
            n >= b.len(),
            r@.len() == i,
            carry <= 1,
            are_digits(r@),
            are_digits(a@),
            are_digits(b@),
            value(r@) + carry * pow10(i as nat) == low(a@, i as int) + low(b@, i as int),
        decreases n - i,
    {
        let x: u8 = if i < a.len() {
            a[i]
        } else {
            0
        };
        let y: u8 = if i < b.len() {
            b[i]
        } else {
            0
        };
        let sum: u8 = x + y + carry;
        let ghost before = r@;
        let ghost p = pow10(i as nat) as int;
        r.push(sum % 10);
        proof {
            assert(r@.drop_last() =~= before);
            lemma_low_step(a@, i as int);
            lemma_low_step(b@, i as int);
            assert(pow10((i + 1) as nat) == 10 * p);
            let s = sum as int;
            let c = carry as int;
            let xi = x as int;
            let yi = y as int;
            assert((s % 10) * p + (s / 10) * (10 * p) == c * p + xi * p + yi * p)
                by (nonlinear_arith)
                requires
                    s == 10 * (s / 10) + s % 10,
                    s == xi + yi + c,
            ;
        }
        carry = sum / 10;
        i += 1;
    }
    assert(a@.take(a.len() as int) =~= a@);
    assert(b@.take(b.len() as int) =~= b@);
    if carry > 0 {
        let ghost before = r@;
        r.push(carry);
        assert(r@.drop_last() =~= before);
    } else {
        assert(0 * pow10(i as nat) == 0) by (nonlinear_arith);
    }
    r
}

/// Appends the decimal text of the number that `d` writes to `out`.
pub fn push_number(out: &mut String, d: &[u8])
    requires
        are_digits(d@),
    ensures
        final(out)@ == old(out)@ + decimal_text(value(d@)),
{
    let mut top: usize = d.len();
    assert(d@.take(top as int) =~= d@);
    while top > 0 && d[top - 1] == 0
        invariant
            top <= d.len(),
            value(d@.take(top as int)) == value(d@),
        decreases top,
    {
        proof {
            let upper = d@.take(top as int);
            assert(upper.drop_last() =~= d@.take(top - 1));
            assert(upper.last() == 0);
            assert(0 * pow10((top - 1) as nat) == 0) by (nonlinear_arith);
        }
        top -= 1;
    }
    if top == 0 {
        out.push('0');
        assert(out@ =~= old(out)@ + decimal_text(0));
        return ;
    }
    let mut i: usize = top - 1;
    out.push(digit_to_char(d[i]));
    proof {
        let one = d@.subrange(i as int, top as int);
        assert(one =~= seq![d@[i as int]]);
        lemma_value_single(d@[i as int]);
        assert(d@[i as int] < 10);
        assert(decimal_text(value(one)) =~= seq![digit_char(d@[i as int] as nat)]);
        assert(out@ =~= old(out)@ + decimal_text(value(one)));
    }
    while i > 0
        invariant
            i < top <= d.len(),
            are_digits(d@),
            d@[top - 1] != 0,
            out@ == old(out)@ + decimal_text(value(d@.subrange(i as int, top as int))),
        decreases i,
    {
        i -= 1;
        out.push(digit_to_char(d[i]));
        proof {
            let part = d@.subrange(i as int, top as int);
            assert(part.skip(1) =~= d@.subrange(i + 1, top as int));
            assert(part.last() == d@[top - 1]);
            lemma_text_step(part);
            assert(out@ =~= old(out)@ + decimal_text(value(part)));
        }
    }
    assert(d@.subrange(0, top as int) =~= d@.take(top as int));
}

} // verus!
