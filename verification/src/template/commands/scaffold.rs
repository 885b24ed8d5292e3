//! Laying out the files of a new day: where they go and what the module of
//! the day starts out as.

use vstd::prelude::*;
use vstd::string::StringExecFns;
use crate::day::{padded, Day};
use crate::decimal::{decimal_text, push_decimal};
use crate::part::Part;
use crate::text::{replace_all, replaced};

verus! {

/// Where the puzzle input of a day is kept, as plain text.
pub open spec fn input_path_text(day: int) -> Seq<char> {
    "data/inputs/"@ + padded(day) + ".txt"@
}

/// Where the example for one part of a day is kept, as plain text.
pub open spec fn example_path_text(day: int, part: int) -> Seq<char> {
    "data/examples/"@ + padded(day) + "-"@ + decimal_text(part as nat) + ".txt"@
}

/// Where the module of a day is kept, as plain text.
pub open spec fn bin_path_text(day: int) -> Seq<char> {
    "src/bin/"@ + padded(day) + ".rs"@
}

/// Where the puzzle input of a day is kept.
pub fn input_path(day: Day) -> (r: String)
    ensures
        r@ == input_path_text(day.value()),
{
    let mut r = "data/inputs/".to_owned();
    let d = day.to_string();
    r.append(d.as_str());
    r.append(".txt");
    r
}

/// Where the example for one part of a day is kept.
pub fn example_path(day: Day, part: Part) -> (r: String)
    ensures
        r@ == example_path_text(day.value(), part.value()),
{
    let mut r = "data/examples/".to_owned();
    let d = day.to_string();
    let p = part.to_string();
    r.append(d.as_str());
    r.append("-");
    r.append(p.as_str());
    r.append(".txt");
    r
}

/// Where the module of a day is kept.
pub fn bin_path(day: Day) -> (r: String)
    ensures
        r@ == bin_path_text(day.value()),
{
    let mut r = "src/bin/".to_owned();
    let d = day.to_string();
    r.append(d.as_str());
    r.append(".rs");
    r
}

/// The module of a day to start from: `template` with the number of the
/// day, written without padding, in every place that reads `DAY_NUMBER`.
pub fn module_source(template: &str, day: Day) -> (r: String)
    ensures
        r@ == replaced(template@, "DAY_NUMBER"@, decimal_text(day.value() as nat)),
{
    let mut number = String::new();
    push_decimal(&mut number, day.into_inner() as u128);
    assert(number@ =~= decimal_text(day.value() as nat));
    replace_all(template, "DAY_NUMBER", number.as_str())
}

} // verus!
