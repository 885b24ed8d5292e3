//! Days of the puzzle calendar.

use vstd::prelude::*;
use crate::decimal::{decimal_text, digit_char, digit_to_char, push_decimal};

verus! {

/// The number of the last day.
pub const LAST_DAY: u8 = 25;

/// A valid day number (an integer from 1 to 25).
///
/// It is written as a two-digit number: day 1 is `01`.
#[derive(Debug, Clone, Copy, PartialEq, Eq, Structural, PartialOrd, Ord, Hash)]
pub struct Day(u8);

/// A day number as it is written: two digits, the first a zero below ten.
pub open spec fn padded(day: int) -> Seq<char> {
    if day < 10 {
        seq!['0', digit_char(day as nat)]
    } else {
        decimal_text(day as nat)
    }
}

impl Day {
    /// The number of this day.
    pub closed spec fn value(self) -> int {
        self.0 as int
    }

    /// The number of this day is one of the calendar.
    #[verifier::type_invariant]
    pub open spec fn wf(self) -> bool {
        1 <= self.value() <= LAST_DAY
    }

    /// Creates a [`Day`] from the provided value if it is in the valid range,
    /// returns [`None`] otherwise.
    pub fn new(day: u8) -> (r: Option<Self>)
        ensures
            r.is_some() == (1 <= day <= LAST_DAY),
            r.is_some() ==> r.unwrap().value() == day && r.unwrap().wf(),
    {
        if day == 0 || day > LAST_DAY {
            return None;
        }
        Some(Self(day))
    }

    /// Creates a [`Day`] from a value that the caller knows to be in the
    /// valid range.
    pub fn __new_unchecked(day: u8) -> (r: Self)
        requires
            1 <= day <= LAST_DAY,
        ensures
            r.value() == day,
            r.wf(),
    {
        Self(day)
    }

    /// Converts the [`Day`] into an [`u8`].
    pub fn into_inner(self) -> (r: u8)
        ensures
            r == self.value(),
            self.wf(),
    {
        proof {
            use_type_invariant(self);
        }
        self.0
    }

    /// The day as a two-digit number.
    pub fn to_string(&self) -> (r: String)
        ensures
            r@ == padded(self.value()),
            self.wf(),
    {
        proof {
            use_type_invariant(self);
        }
        let mut r = String::new();
        if self.0 < 10 {
            r.push('0');
            r.push(digit_to_char(self.0));
            assert(r@ =~= padded(self.value()));
        } else {
            push_decimal(&mut r, self.0 as u128);
            assert(r@ =~= padded(self.value()));
        }
        r
    }
}

/// Every day of the calendar, in order.
pub fn all_days() -> (r: Vec<Day>)
    ensures
        r@.len() == LAST_DAY,
        forall|i: int| 0 <= i < r@.len() ==> (#[trigger] r@[i]).value() == i + 1 && r@[i].wf(),
{
    let mut r: Vec<Day> = Vec::new();
    let mut d: u8 = 1;
    while d <= LAST_DAY
        invariant
            1 <= d <= LAST_DAY + 1,
            r@.len() == d - 1,
            forall|i: int| 0 <= i < r@.len() ==> (#[trigger] r@[i]).value() == i + 1 && r@[i].wf(),
        decreases LAST_DAY + 1 - d,
    {
        r.push(Day::__new_unchecked(d));
        d += 1;
    }
    r
}

} // verus!
