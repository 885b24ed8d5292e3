//! Parts of a puzzle day.

use vstd::prelude::*;
use crate::decimal::{all_digits, decimal_text, digit_to_char, digits_value, parse_digits};
use crate::text::to_chars;
use vstd::slice::slice_subrange;
use vstd::std_specs::cmp::{PartialEqSpecImpl, PartialOrdSpecImpl};
use std::cmp::Ordering;
use std::str::FromStr;

verus! {

/// A valid part number (either 1 or 2).
///
/// It is written as a single digit.
#[derive(Debug, Clone, Copy, PartialEq, Eq, Structural, PartialOrd, Ord, Hash)]
pub struct Part(u8);

/// The digits of an unsigned number in text: `s` without a leading `+`.
pub open spec fn unsigned_digits(s: Seq<char>) -> Seq<char> {
    if s.len() > 0 && s[0] == '+' {
        s.skip(1)
    } else {
        s
    }
}

/// `s` writes the number `v`: an optional `+`, then one or more digits.
pub open spec fn denotes(s: Seq<char>, v: int) -> bool {
    let d = unsigned_digits(s);
    d.len() > 0 && all_digits(d) && digits_value(d) == v
}

impl Part {
    /// The number of this part.
    pub closed spec fn value(self) -> int {
        self.0 as int
    }

    /// The number of this part is 1 or 2.
    #[verifier::type_invariant]
    pub open spec fn wf(self) -> bool {
        self.value() == 1 || self.value() == 2
    }

    /// Creates a [`Part`] from the provided value if it is 1 or 2,
    /// returns [`None`] otherwise.
    pub fn new(part: u8) -> (r: Option<Self>)
        ensures
            r.is_some() == (part == 1 || part == 2),
            r.is_some() ==> r.unwrap().value() == part && r.unwrap().wf(),
    {
        if part != 1 && part != 2 {
            return None;
        }
        Some(Self(part))
    }

    /// Creates a [`Part`] from a value that the caller knows to be 1 or 2.
    pub fn __new_unchecked(part: u8) -> (r: Self)
        requires
            part == 1 || part == 2,
        ensures
            r.value() == part,
            r.wf(),
    {
        Self(part)
    }

    /// Converts the [`Part`] into an [`u8`].
    pub fn into_inner(self) -> (r: u8)
        ensures
            r == self.value(),
            self.wf(),
    {
        proof {
            use_type_invariant(self);
        }
        self.0
    }

    /// The part as a single digit.
    pub fn to_string(&self) -> (r: String)
        ensures
            r@ == decimal_text(self.value() as nat),
            self.wf(),
    {
        proof {
            use_type_invariant(self);
        }
        let mut r = String::new();
        r.push(digit_to_char(self.0));
        assert(r@ =~= decimal_text(self.value() as nat));
        r
    }

    /// Reads a part from text: a number, 1 or 2, written as an optional `+`
    /// and digits.
    pub fn from_str(s: &str) -> (r: Result<Self, PartFromStrError>)
        ensures
            r.is_ok() == (denotes(s@, 1) || denotes(s@, 2)),
            r.is_ok() ==> denotes(s@, r.unwrap().value()) && r.unwrap().wf(),
    {
        let cs = to_chars(s);
        let n = cs.len();
        let digits = if n > 0 && cs[0] == '+' {
            slice_subrange(cs.as_slice(), 1, n)
        } else {
            cs.as_slice()
        };
        assert(digits@ =~= unsigned_digits(s@));
        if digits.len() == 0 {
            return Err(PartFromStrError);
        }
        match parse_digits(digits) {
            Some(v) => {
                if v == 1 || v == 2 {
                    Ok(Self(v as u8))
                } else {
                    Err(PartFromStrError)
                }
            },
            None => Err(PartFromStrError),
        }
    }
}

impl PartialEq<u8> for Part {
    /// A part equals the number that it holds.
    fn eq(&self, other: &u8) -> (r: bool) {
        self.0 == *other
    }
}

impl PartialEqSpecImpl<u8> for Part {
    open spec fn obeys_eq_spec() -> bool {
        true
    }

    open spec fn eq_spec(&self, other: &u8) -> bool {
        self.value() == *other
    }
}

impl PartialOrd<u8> for Part {
    /// A part is ordered among numbers as the number that it holds.
    fn partial_cmp(&self, other: &u8) -> (r: Option<Ordering>) {
        if self.0 < *other {
            Some(Ordering::Less)
        } else if self.0 == *other {
            Some(Ordering::Equal)
        } else {
            Some(Ordering::Greater)
        }
    }
}

impl PartialOrdSpecImpl<u8> for Part {
    open spec fn obeys_partial_cmp_spec() -> bool {
        true
    }

    open spec fn partial_cmp_spec(&self, other: &u8) -> Option<Ordering> {
        if self.value() < *other {
            Some(Ordering::Less)
        } else if self.value() == *other {
            Some(Ordering::Equal)
        } else {
            Some(Ordering::Greater)
        }
    }
}

impl FromStr for Part {
    type Err = PartFromStrError;

    /// Reads a part from text, as [`Part::from_str`] does: the text must
    /// write the number 1 or 2 as an optional `+` and digits.
    fn from_str(s: &str) -> (r: Result<Self, Self::Err>)
        ensures
            r.is_ok() == (denotes(s@, 1) || denotes(s@, 2)),
            r.is_ok() ==> denotes(s@, r.unwrap().value()) && r.unwrap().wf(),
    {
        Part::from_str(s)
    }
}

/// An error which can be returned when parsing a [`Part`].
#[derive(Debug)]
pub struct PartFromStrError;

impl PartFromStrError {
    /// What went wrong, in words.
    pub fn to_string(&self) -> (r: String)
        ensures
            r@ == "expecting a part, either 1 or 2"@,
    {
        "expecting a part, either 1 or 2".to_owned()
    }
}

} // verus!
