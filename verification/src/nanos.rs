//! Spans of time in nanoseconds, held exactly.
//!
//! A span is a whole number of any size together with the power of ten
//! that it is divided by: `7413` with scale `2` is 74.13 ns. Nothing is
//! ever cut off or rounded but where a span is shown in milliseconds.

use vstd::prelude::*;
use vstd::slice::slice_subrange;
use crate::decimal::{
    decimal_text, digit_char, digit_to_char, lemma_pow10_adds, lemma_pow10_increases, pow10,
};
use crate::digits::{
    are_digits, from_u128, lemma_value_bound, lemma_value_leading_zero, lemma_value_single,
    lemma_value_split, push_number, shifted, sum_digits, value,
};

verus! {

/// A span of time as plain values: `num / 10^scale` nanoseconds.
pub ghost struct Span {
    pub num: nat,
    pub scale: nat,
}

/// No time at all.
pub open spec fn no_time() -> Span {
    Span { num: 0, scale: 0 }
}

/// The sum of two spans, at the finer of their two scales.
pub open spec fn plus(a: Span, b: Span) -> Span {
    let scale = if a.scale >= b.scale {
        a.scale
    } else {
        b.scale
    };
    Span {
        num: a.num * pow10((scale - a.scale) as nat) + b.num * pow10((scale - b.scale) as nat),
        scale,
    }
}

/// A span in hundredths of a millisecond, rounded to the nearest, halves
/// upwards.
pub open spec fn centimillis(t: Span) -> nat {
    (t.num + 5 * pow10(t.scale + 3)) / pow10(t.scale + 4)
}

/// A span written in milliseconds with two decimal places, such as
/// `190.00`.
pub open spec fn millis_text(t: Span) -> Seq<char> {
    let c = centimillis(t);
    decimal_text(c / 100) + seq!['.', digit_char(c / 10 % 10), digit_char(c % 10)]
}

/// The sum of two spans is the sum of their lengths: brought to the
/// product of both scales, the numbers add up.
pub proof fn lemma_plus_adds(a: Span, b: Span)
    ensures
        plus(a, b).num * pow10(a.scale) * pow10(b.scale) == (a.num * pow10(b.scale) + b.num * pow10(
            a.scale,
        )) * pow10(plus(a, b).scale),
{
    let s = plus(a, b).scale;
    let pa = pow10(a.scale) as int;
    let pb = pow10(b.scale) as int;
    let ps = pow10(s) as int;
    let ua = pow10((s - a.scale) as nat) as int;
    let ub = pow10((s - b.scale) as nat) as int;
    lemma_pow10_adds(a.scale, (s - a.scale) as nat);
    lemma_pow10_adds(b.scale, (s - b.scale) as nat);
    let x = a.num as int;
    let y = b.num as int;
    assert((x * ua) * pa * pb == (x * pb) * (pa * ua)) by (nonlinear_arith);
    assert((y * ub) * pa * pb == (y * pa) * (pb * ub)) by (nonlinear_arith);
    assert((x * ua + y * ub) * pa * pb == (x * ua) * pa * pb + (y * ub) * pa * pb)
        by (nonlinear_arith);
    assert((x * pb + y * pa) * ps == (x * pb) * ps + (y * pa) * ps) by (nonlinear_arith);
}

/// A span of time in nanoseconds.
#[derive(Debug, PartialEq, Eq)]
pub struct Nanos {
    digits: Vec<u8>,
    scale: usize,
}

impl Clone for Nanos {
    /// A copy of the span.
    fn clone(&self) -> (r: Self)
        ensures
            r@ == self@,
    {
        proof {
            use_type_invariant(self);
        }
        let digits = self.digits.clone();
        assert(digits@ =~= self.digits@);
        Nanos { digits, scale: self.scale }
    }
}

impl View for Nanos {
    type V = Span;

    closed spec fn view(&self) -> Span {
        Span { num: value(self.digits@), scale: self.scale as nat }
    }
}

impl Nanos {
    /// The number of the span is held in decimal digits.
    #[verifier::type_invariant]
    pub closed spec fn wf(self) -> bool {
        are_digits(self.digits@)
    }

    /// No time at all.
    pub fn zero() -> (r: Self)
        ensures
            r@ == no_time(),
    {
        Nanos { digits: Vec::new(), scale: 0 }
    }

    /// The span `value(digits) / 10^scale` nanoseconds, from the decimal
    /// digits of its number, the least significant first.
    pub fn from_digits(digits: Vec<u8>, scale: usize) -> (r: Self)
        requires
            are_digits(digits@),
        ensures
            r@ == (Span { num: value(digits@), scale: scale as nat }),
    {
        Nanos { digits, scale }
    }

    /// The span `num / 10^scale` nanoseconds.
    pub fn from_decimal(num: u128, scale: usize) -> (r: Self)
        ensures
            r@ == (Span { num: num as nat, scale: scale as nat }),
    {
        Nanos { digits: from_u128(num), scale }
    }

    /// A span of `nanos` whole nanoseconds.
    pub fn from_nanos(nanos: u64) -> (r: Self)
        ensures
            r@ == (Span { num: nanos as nat, scale: 0 }),
    {
        Nanos::from_decimal(nanos as u128, 0)
    }

    /// A span of `picos` thousandths of a nanosecond.
    pub fn from_picos(picos: u128) -> (r: Self)
        ensures
            r@ == (Span { num: picos as nat, scale: 3 }),
    {
        Nanos::from_decimal(picos, 3)
    }

    /// The decimal digits of the number of the span, the least significant
    /// first.
    pub fn digits(&self) -> (r: &[u8])
        ensures
            are_digits(r@),
            value(r@) == self@.num,
    {
        proof {
            use_type_invariant(self);
        }
        self.digits.as_slice()
    }

    /// The power of ten that the number of the span is divided by.
    pub fn scale(&self) -> (r: usize)
        ensures
            r == self@.scale,
    {
        self.scale
    }

    /// The sum of two spans.
    pub fn plus(&self, other: &Self) -> (r: Self)
        ensures
            r@ == plus(self@, other@),
    {
        proof {
            use_type_invariant(self);
            use_type_invariant(other);
            assert(pow10(0) == 1);
            assert(self@.num * pow10(0) == self@.num) by (nonlinear_arith)
                requires
                    pow10(0) == 1,
            ;
            assert(other@.num * pow10(0) == other@.num) by (nonlinear_arith)
                requires
                    pow10(0) == 1,
            ;
        }
        if self.scale >= other.scale {
            let aligned = shifted(other.digits.as_slice(), self.scale - other.scale);
            Nanos {
                digits: sum_digits(self.digits.as_slice(), aligned.as_slice()),
                scale: self.scale,
            }
        } else {
            let aligned = shifted(self.digits.as_slice(), other.scale - self.scale);
            Nanos {
                digits: sum_digits(aligned.as_slice(), other.digits.as_slice()),
                scale: other.scale,
            }
        }
    }

    /// The digits of the span in hundredths of a millisecond, rounded to the
    /// nearest, halves upwards.
    fn centimilli_digits(&self) -> (r: Vec<u8>)
        ensures
            are_digits(r@),
            value(r@) == centimillis(self@),
    {
        proof {
            use_type_invariant(self);
        }
        let len = self.digits.len();
        let ghost d = self.digits@;
        let ghost n = value(d) as int;
        let ghost half = pow10((self.scale + 3) as nat) as int;
        proof {
            lemma_pow10_adds((self.scale + 3) as nat, 0);
            assert(pow10((self.scale + 4) as nat) == 10 * half);
        }
        if len >= 4 && self.scale <= len - 4 {
            let k = self.scale + 4;
            let high = slice_subrange(self.digits.as_slice(), k, len);
            let up = self.digits[k - 1] >= 5;
            proof {
                lemma_value_split(d, k as int);
                let low = d.take(k as int);
                lemma_value_split(low, k - 1);
                assert(low.skip(k - 1) =~= seq![d[k - 1]]);
                lemma_value_single(d[k - 1]);
                assert(low.take(k - 1) =~= d.take(k - 1));
                let q = value(d.skip(k as int)) as int;
                let rest = value(d.take(k - 1)) as int;
                let x = d[k - 1] as int;
                assert(d[k - 1] < 10);
                assert(n == rest + half * x + (10 * half) * q);
                if up {
                    assert(n + 5 * half == (q + 1) * (10 * half) + (rest + (x - 5) * half) && 0
                        <= rest + (x - 5) * half < 10 * half) by (nonlinear_arith)
                        requires
                            n == rest + half * x + (10 * half) * q,
                            0 <= rest < half,
                            5 <= x <= 9,
                    ;
                    vstd::arithmetic::div_mod::lemma_fundamental_div_mod_converse(
                        n + 5 * half,
                        10 * half,
                        q + 1,
                        rest + (x - 5) * half,
                    );
                } else {
                    assert(n + 5 * half == q * (10 * half) + (rest + (x + 5) * half) && 0 <= rest
                        + (x + 5) * half < 10 * half) by (nonlinear_arith)
                        requires
                            n == rest + half * x + (10 * half) * q,
                            0 <= rest < half,
                            0 <= x <= 4,
                    ;
                    vstd::arithmetic::div_mod::lemma_fundamental_div_mod_converse(
                        n + 5 * half,
                        10 * half,
                        q,
                        rest + (x + 5) * half,
                    );
                }
                lemma_value_single(1);
            }
            if up {
                let one: [u8; 1] = [1];
                assert(one@ =~= seq![1u8]);
                sum_digits(high, &one)
            } else {
                let none: [u8; 0] = [];
                assert(none@ =~= Seq::<u8>::empty());
                sum_digits(high, &none)
            }
        } else {
            proof {
                lemma_value_bound(d);
                lemma_pow10_increases(len as nat, (self.scale + 3) as nat);
                assert(n + 5 * half == 0 * (10 * half) + (n + 5 * half) && 0 <= n + 5 * half < 10
                    * half) by (nonlinear_arith)
                    requires
                        0 <= n < half,
                ;
                vstd::arithmetic::div_mod::lemma_fundamental_div_mod_converse(
                    n + 5 * half,
                    10 * half,
                    0,
                    n + 5 * half,
                );
            }
            Vec::new()
        }
    }

    /// The span in milliseconds with two decimal places, rounded to the
    /// nearest hundredth, halves upwards.
    pub fn to_millis_string(&self) -> (r: String)
        ensures
            r@ == millis_text(self@),
    {
        let mut c = self.centimilli_digits();
        let ghost exact = c@;
        c.push(0);
        c.push(0);
        c.push(0);
        let len = c.len();
        let whole = slice_subrange(c.as_slice(), 2, len);
        proof {
            lemma_value_leading_zero(exact);
            lemma_value_leading_zero(exact.push(0));
            lemma_value_leading_zero(exact.push(0).push(0));
            lemma_value_split(c@, 2);
            lemma_value_split(c@, 1);
            lemma_value_split(c@.skip(1), 1);
            assert(c@.take(1) =~= seq![c@[0]]);
            assert(c@.skip(1).take(1) =~= seq![c@[1]]);
            lemma_value_single(c@[0]);
            lemma_value_single(c@[1]);
            assert(pow10(1) == 10 && pow10(2) == 100) by {
                assert(pow10(0) == 1);
                assert(pow10(1) == 10 * pow10(0));
                assert(pow10(2) == 10 * pow10(1));
            }
            assert(c@[0] < 10 && c@[1] < 10);
        }
        let mut r = String::new();
        push_number(&mut r, whole);
        r.push('.');
        r.push(digit_to_char(c[1]));
        r.push(digit_to_char(c[0]));
        assert(r@ =~= millis_text(self@));
        r
    }
}

} // verus!
