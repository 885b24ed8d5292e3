//! Keeps the benchmark table of a document up to date.
//!
//! The table stands between two copies of a marker. An update swaps
//! everything from the first marker to the end of the second for a freshly
//! rendered table, which again begins and ends with the marker.

use vstd::prelude::*;
use vstd::slice::slice_subrange;
use vstd::string::StringExecFns;
use crate::day::{padded, Day};
use crate::decimal::{
    all_digits, decimal_text, digit_char, is_digit, lemma_decimal_text_is_digits, push_decimal,
};
use crate::nanos::{centimillis, millis_text, Nanos, Span};
use crate::text::{
    begins_none, contains, find_all, lacks, lemma_begins_none_concat, lemma_begins_none_guarded,
    lemma_begins_none_lacking, lemma_bracketed_occurrences, lemma_lacks_concat, lemma_occurrences,
    lemma_occurrences_below, lemma_occurs_between, lemma_two_occurrences, occurrences, occurs_at,
    push_chars, to_chars,
};

verus! {

/// The token that opens and closes the table.
pub const MARKER: &'static str = "<!--- benchmarking table --->";

/// `std::io::Error`, carried through untouched.
#[verifier::external_type_specification]
#[verifier::external_body]
pub struct ExIoError(std::io::Error);

/// Why a document could not be updated.
#[derive(Debug)]
pub enum Error {
    /// The document does not hold the marker exactly twice.
    Parser(String),
    /// The document could not be read or written.
    IO(std::io::Error),
}

impl From<std::io::Error> for Error {
    fn from(e: std::io::Error) -> (r: Self) {
        Error::IO(e)
    }
}

impl vstd::std_specs::convert::FromSpecImpl<std::io::Error> for Error {
    open spec fn obeys_from_spec() -> bool {
        true
    }

    open spec fn from_spec(e: std::io::Error) -> Self {
        Error::IO(e)
    }
}

/// The timings of one day.
#[derive(Clone, Debug)]
pub struct Benchmark {
    /// The day that was run.
    pub day: Day,
    /// Time and memory of part 1, as they were printed.
    pub part_1: Option<(String, String)>,
    /// Time and memory of part 2, as they were printed.
    pub part_2: Option<(String, String)>,
    /// The time of all measurements of the day together.
    pub total_nanos: Nanos,
}

/// A [`Benchmark`] as plain values.
pub ghost struct BenchmarkView {
    pub day: Day,
    pub part_1: Option<(Seq<char>, Seq<char>)>,
    pub part_2: Option<(Seq<char>, Seq<char>)>,
    pub total: Span,
}

/// A pair of strings as plain values.
pub open spec fn pair_view(p: Option<(String, String)>) -> Option<(Seq<char>, Seq<char>)> {
    match p {
        Some((time, memory)) => Some((time@, memory@)),
        None => None,
    }
}

impl View for Benchmark {
    type V = BenchmarkView;

    open spec fn view(&self) -> BenchmarkView {
        BenchmarkView {
            day: self.day,
            part_1: pair_view(self.part_1),
            part_2: pair_view(self.part_2),
            total: self.total_nanos@,
        }
    }
}

/// Benchmarks as plain values.
pub open spec fn views(benchmarks: Seq<Benchmark>) -> Seq<BenchmarkView> {
    benchmarks.map_values(|b: Benchmark| b@)
}

/// Where the table stands in a document: from the first character of the
/// opening marker to just behind the last character of the closing one.
pub struct TablePosition {
    pos_start: usize,
    pos_end: usize,
}

impl TablePosition {
    /// The position of the table's first character.
    pub closed spec fn start(self) -> int {
        self.pos_start as int
    }

    /// The position just behind the table's last character.
    pub closed spec fn end(self) -> int {
        self.pos_end as int
    }

    /// Both ends of the table, counted in characters: the position of its
    /// first character and the position just behind its last.
    pub fn bounds(&self) -> (r: (usize, usize))
        ensures
            r.0 == self.start(),
            r.1 == self.end(),
    {
        (self.pos_start, self.pos_end)
    }
}

/// The marker as plain text.
pub open spec fn marker() -> Seq<char> {
    MARKER@
}

/// The message for a document without any marker.
pub open spec fn no_start_message() -> Seq<char> {
    "Could not find table start position."@
}

/// The message for a document with a single marker.
pub open spec fn no_end_message() -> Seq<char> {
    "Could not find table end position."@
}

/// The message for a document with more than two markers.
pub open spec fn too_many_message() -> Seq<char> {
    "Too many occurrences of marker in document."@
}

/// Where the solution of a day lives, as plain text.
pub open spec fn path_for_bin(day: int) -> Seq<char> {
    "./src/bin/"@ + padded(day) + ".rs"@
}

/// What a table cell shows for one part: its time and memory, or two
/// dashes where the part is missing.
pub open spec fn cell(part: Option<(Seq<char>, Seq<char>)>) -> (Seq<char>, Seq<char>) {
    match part {
        Some(p) => p,
        None => ("-"@, "-"@),
    }
}

/// The table row of one day, without a line end.
pub open spec fn row_text(b: BenchmarkView) -> Seq<char> {
    "| [Day "@ + decimal_text(b.day.value() as nat) + "]("@ + path_for_bin(b.day.value())
        + ") | `"@ + cell(b.part_1).0 + "` `"@ + cell(b.part_1).1 + "` | `"@ + cell(b.part_2).0
        + "` `"@ + cell(b.part_2).1 + "` |"@
}

/// The rows of the table in the order of `bs`, each with its line end.
pub open spec fn rows_text(bs: Seq<BenchmarkView>) -> Seq<char>
    decreases bs.len(),
{
    if bs.len() == 0 {
        Seq::empty()
    } else {
        rows_text(bs.drop_last()) + row_text(bs.last()) + "\n"@
    }
}

/// What stands between the opening marker and the first row: the heading,
/// an empty line and the head of the table.
pub open spec fn head_text(prefix: Seq<char>) -> Seq<char> {
    "\n"@ + prefix + " Benchmarks\n\n| Day | Part 1 | Part 2 |\n| :---: | :---: | :---:  |\n"@
}

/// What stands between the last row and the closing marker: an empty line
/// and the total time in milliseconds.
pub open spec fn foot_text(total: Span) -> Seq<char> {
    "\n**Total time: "@ + millis_text(total) + "ms**\n\n"@
}

/// The rendered table: marker, heading, one row for each benchmark, total
/// time, marker.
pub open spec fn table_text(prefix: Seq<char>, bs: Seq<BenchmarkView>, total: Span) -> Seq<char> {
    marker() + head_text(prefix) + rows_text(bs) + foot_text(total) + marker()
}

/// The positions of the marker in a document.
pub open spec fn marker_positions(doc: Seq<char>) -> Seq<int> {
    occurrences(doc, marker())
}

/// What looking for the table in `doc` yields: the span from the first
/// character of the first marker to just behind the second marker where
/// there are exactly two markers, else the message that says how many
/// there are.
pub open spec fn table_span(doc: Seq<char>) -> Result<(int, int), Seq<char>> {
    let found = marker_positions(doc);
    if found.len() == 0 {
        Err(no_start_message())
    } else if found.len() == 1 {
        Err(no_end_message())
    } else if found.len() == 2 {
        Ok((found[0], found[1] + marker().len()))
    } else {
        Err(too_many_message())
    }
}

/// The document with everything from its first marker to the end of its
/// second one replaced by `table`; meaningful where it holds two markers.
pub open spec fn patched(doc: Seq<char>, table: Seq<char>) -> Seq<char> {
    doc.take(marker_positions(doc)[0]) + table + doc.skip(
        marker_positions(doc)[1] + marker().len(),
    )
}

/// The three messages differ from each other.
pub proof fn lemma_messages_differ()
    ensures
        no_start_message() != no_end_message(),
        no_start_message() != too_many_message(),
        no_end_message() != too_many_message(),
{
    reveal_strlit("Could not find table start position.");
    reveal_strlit("Could not find table end position.");
    reveal_strlit("Too many occurrences of marker in document.");
    assert(no_start_message().len() == 36);
    assert(no_end_message().len() == 34);
    assert(too_many_message().len() == 43);
}

/// A document passes with exactly two markers and with no other count:
/// none, one, and three or more are each refused with a message of their
/// own.
pub proof fn lemma_only_two_markers_pass(doc: Seq<char>)
    ensures
        table_span(doc) is Ok <==> marker_positions(doc).len() == 2,
        marker_positions(doc).len() == 0 ==> table_span(doc) == Err::<(int, int), Seq<char>>(
            no_start_message(),
        ),
        marker_positions(doc).len() == 1 ==> table_span(doc) == Err::<(int, int), Seq<char>>(
            no_end_message(),
        ),
        marker_positions(doc).len() >= 3 ==> table_span(doc) == Err::<(int, int), Seq<char>>(
            too_many_message(),
        ),
        no_start_message() != no_end_message(),
        no_start_message() != too_many_message(),
        no_end_message() != too_many_message(),
{
    lemma_messages_differ();
}

/// A marker that begins in the patched document before the table is one
/// that stood in the document before its first marker.
proof fn lemma_marker_before_table(doc: Seq<char>, table: Seq<char>, p: int)
    requires
        marker_positions(doc).len() == 2,
        occurs_at(table, marker(), 0),
        occurs_at(patched(doc, table), marker(), p),
        p < marker_positions(doc)[0],
    ensures
        occurs_at(doc, marker(), p),
{
    lemma_occurrences(doc, marker());
    let a = marker_positions(doc)[0];
    let b = marker_positions(doc)[1];
    let new = patched(doc, table);
    assert(occurs_at(doc, marker(), a));
    assert(occurs_at(doc, marker(), b));
    assert forall|k: int| 0 <= k < marker().len() implies doc[p + k] == #[trigger] marker()[k] by {
        assert(new[p + k] == marker()[k]);
        if p + k < a {
            assert(new[p + k] == doc[p + k]);
        } else {
            let i = p + k - a;
            assert(new[p + k] == table[i]);
            assert(table[0 + i] == marker()[i]);
            assert(doc[a + i] == marker()[i]);
        }
    }
}

/// A marker that begins in the patched document within the table, with
/// room for all of it, is a marker of the table.
proof fn lemma_marker_within_table(doc: Seq<char>, table: Seq<char>, p: int)
    requires
        marker_positions(doc).len() == 2,
        occurs_at(patched(doc, table), marker(), p),
        marker_positions(doc)[0] <= p <= marker_positions(doc)[0] + table.len() - marker().len(),
    ensures
        occurs_at(table, marker(), p - marker_positions(doc)[0]),
{
    lemma_occurrences(doc, marker());
    let a = marker_positions(doc)[0];
    let new = patched(doc, table);
    assert(occurs_at(doc, marker(), a));
    assert forall|k: int| 0 <= k < marker().len() implies table[p - a + k]
        == #[trigger] marker()[k] by {
        assert(new[p + k] == marker()[k]);
        assert(new[p + k] == table[p - a + k]);
    }
}

/// A marker that begins in the patched document behind the start of the
/// table's closing marker is one that stood in the document behind its
/// second marker.
proof fn lemma_marker_after_table(doc: Seq<char>, table: Seq<char>, p: int)
    requires
        marker_positions(doc).len() == 2,
        table.len() >= marker().len(),
        occurs_at(table, marker(), table.len() - marker().len()),
        occurs_at(patched(doc, table), marker(), p),
        p > marker_positions(doc)[0] + table.len() - marker().len(),
    ensures
        occurs_at(
            doc,
            marker(),
            p - (marker_positions(doc)[0] + table.len() - marker().len()) + marker_positions(
                doc,
            )[1],
        ),
{
    lemma_occurrences(doc, marker());
    let a = marker_positions(doc)[0];
    let b = marker_positions(doc)[1];
    let len = marker().len() as int;
    let new = patched(doc, table);
    let q = p - (a + table.len() - len);
    assert(occurs_at(doc, marker(), a));
    assert(occurs_at(doc, marker(), b));
    assert forall|k: int| 0 <= k < len implies doc[b + q + k] == #[trigger] marker()[k] by {
        assert(new[p + k] == marker()[k]);
        if p + k < a + table.len() {
            assert(new[p + k] == table[p + k - a]);
            assert(table[(table.len() - len) + (q + k)] == marker()[q + k]);
            assert(doc[b + (q + k)] == marker()[q + k]);
        } else {
            assert(new[p + k] == doc.skip(b + len)[p + k - a - table.len()]);
        }
    }
}

/// Updating is idempotent.
///
/// Take a document with exactly two markers and a table that holds the
/// marker at its start, at its end and nowhere else. The patched document
/// again holds exactly two markers, those of the table, and patching it
/// once more with the same table changes nothing.
pub proof fn lemma_patch_is_idempotent(doc: Seq<char>, table: Seq<char>)
    requires
        marker_positions(doc).len() == 2,
        marker_positions(table) == seq![0int, table.len() - marker().len()],
    ensures
        marker_positions(patched(doc, table)) == seq![
            marker_positions(doc)[0],
            marker_positions(doc)[0] + table.len() - marker().len(),
        ],
        patched(patched(doc, table), table) == patched(doc, table),
{
    reveal_strlit("<!--- benchmarking table --->");
    lemma_occurrences(doc, marker());
    lemma_occurrences(table, marker());
    let a = marker_positions(doc)[0];
    let b = marker_positions(doc)[1];
    let len = marker().len() as int;
    let end = table.len() - len;
    let new = patched(doc, table);
    assert(occurs_at(doc, marker(), a));
    assert(occurs_at(doc, marker(), b));
    assert(marker_positions(table)[0] == 0 && marker_positions(table)[1] == end);
    assert(occurs_at(table, marker(), 0));
    assert(occurs_at(table, marker(), end));
    assert(0 < end);
    assert forall|k: int| 0 <= k < len implies new[a + k] == #[trigger] marker()[k] by {
        assert(new[a + k] == table[0 + k]);
    }
    assert forall|k: int| 0 <= k < len implies new[a + end + k] == #[trigger] marker()[k] by {
        assert(new[a + end + k] == table[end + k]);
    }
    assert(occurs_at(new, marker(), a));
    assert(occurs_at(new, marker(), a + end));
    assert forall|p: int| occurs_at(new, marker(), p) implies p == a || p == a + end by {
        if p < a {
            lemma_marker_before_table(doc, table, p);
            assert(marker_positions(doc).contains(p));
        } else if p <= a + end {
            lemma_marker_within_table(doc, table, p);
            assert(marker_positions(table).contains(p - a));
        } else {
            lemma_marker_after_table(doc, table, p);
            assert(marker_positions(doc).contains(p - (a + end) + b));
        }
    }
    lemma_two_occurrences(new, marker(), a, a + end);
    assert(new.take(a) =~= doc.take(a));
    assert(new.skip(a + end + len) =~= doc.skip(b + len));
}

/// A rendered table begins and ends with the marker.
pub proof fn lemma_table_ends_in_markers(prefix: Seq<char>, bs: Seq<BenchmarkView>, total: Span)
    ensures
        table_text(prefix, bs, total).len() >= 2 * marker().len(),
        occurs_at(table_text(prefix, bs, total), marker(), 0),
        occurs_at(
            table_text(prefix, bs, total),
            marker(),
            table_text(prefix, bs, total).len() - marker().len(),
        ),
{
    let table = table_text(prefix, bs, total);
    let inner = head_text(prefix) + rows_text(bs) + foot_text(total);
    assert(table =~= Seq::<char>::empty() + marker() + (inner + marker()));
    lemma_occurs_between(Seq::<char>::empty(), marker(), inner + marker());
    assert(table =~= (marker() + inner) + marker() + Seq::<char>::empty());
    lemma_occurs_between(marker() + inner, marker(), Seq::<char>::empty());
}

/// No cell of `b` holds the marker.
pub open spec fn cells_hold_no_marker(b: BenchmarkView) -> bool {
    &&& !contains(cell(b.part_1).0, marker())
    &&& !contains(cell(b.part_1).1, marker())
    &&& !contains(cell(b.part_2).0, marker())
    &&& !contains(cell(b.part_2).1, marker())
}

/// Text made of digits has no `<`.
proof fn lemma_digits_lack_angle(s: Seq<char>)
    requires
        all_digits(s),
    ensures
        lacks(s, '<'),
{
    assert forall|i: int| 0 <= i < s.len() implies s[i] != '<' by {
        assert(is_digit(s[i]));
    }
}

/// The number of a day, padded or not, has no `<`.
proof fn lemma_day_lacks_angle(day: int)
    requires
        1 <= day,
    ensures
        lacks(padded(day), '<'),
        lacks(decimal_text(day as nat), '<'),
        lacks(path_for_bin(day), '<'),
{
    reveal_strlit("./src/bin/");
    reveal_strlit(".rs");
    lemma_decimal_text_is_digits(day as nat);
    lemma_digits_lack_angle(decimal_text(day as nat));
    assert(lacks(padded(day), '<'));
    lemma_lacks_concat("./src/bin/"@, padded(day), '<');
    lemma_lacks_concat("./src/bin/"@ + padded(day), ".rs"@, '<');
}

/// What a row begins with, up to the backtick that opens its first cell,
/// has no `<`.
proof fn lemma_row_front_lacks_angle(day: int)
    requires
        1 <= day,
    ensures
        lacks("| [Day "@ + decimal_text(day as nat) + "]("@ + path_for_bin(day) + ") | `"@, '<'),
{
    reveal_strlit("| [Day ");
    reveal_strlit("](");
    reveal_strlit(") | `");
    lemma_day_lacks_angle(day);
    let a = "| [Day "@ + decimal_text(day as nat);
    lemma_lacks_concat("| [Day "@, decimal_text(day as nat), '<');
    lemma_lacks_concat(a, "]("@, '<');
    lemma_lacks_concat(a + "]("@, path_for_bin(day), '<');
    lemma_lacks_concat(a + "]("@ + path_for_bin(day), ") | `"@, '<');
}

/// No marker begins within a cell that holds none, nor within what
/// follows the cell in its row: each cell is closed by a backtick, which
/// the marker has not.
proof fn lemma_cell_begins_none(shown: Seq<char>, closing: Seq<char>)
    requires
        !contains(shown, marker()),
        closing.len() > 0,
        closing[0] == '`',
        lacks(closing, '<'),
    ensures
        begins_none(shown + closing, marker()),
{
    lemma_marker_angle();
    lemma_begins_none_guarded(shown, '`', marker());
    let rest = closing.skip(1);
    assert forall|i: int| 0 <= i < rest.len() implies rest[i] != '<' by {
        assert(rest[i] == closing[i + 1]);
    }
    lemma_begins_none_lacking(rest, marker());
    lemma_begins_none_concat(shown.push('`'), rest, marker());
    assert(shown + closing =~= shown.push('`') + rest);
}

/// No marker begins within a row whose cells hold none.
proof fn lemma_row_begins_none(b: BenchmarkView)
    requires
        b.day.wf(),
        cells_hold_no_marker(b),
    ensures
        begins_none(row_text(b), marker()),
{
    reveal_strlit("` `");
    reveal_strlit("` | `");
    reveal_strlit("` |");
    lemma_marker_angle();
    let day = b.day.value();
    let front = "| [Day "@ + decimal_text(day as nat) + "]("@ + path_for_bin(day) + ") | `"@;
    lemma_row_front_lacks_angle(day);
    lemma_begins_none_lacking(front, marker());
    let first = cell(b.part_1).0 + "` `"@;
    let second = cell(b.part_1).1 + "` | `"@;
    let third = cell(b.part_2).0 + "` `"@;
    let fourth = cell(b.part_2).1 + "` |"@;
    lemma_cell_begins_none(cell(b.part_1).0, "` `"@);
    lemma_cell_begins_none(cell(b.part_1).1, "` | `"@);
    lemma_cell_begins_none(cell(b.part_2).0, "` `"@);
    lemma_cell_begins_none(cell(b.part_2).1, "` |"@);
    lemma_begins_none_concat(front, first, marker());
    lemma_begins_none_concat(front + first, second, marker());
    lemma_begins_none_concat(front + first + second, third, marker());
    lemma_begins_none_concat(front + first + second + third, fourth, marker());
    assert(row_text(b) =~= front + first + second + third + fourth);
}

/// No marker begins within the rows of benchmarks whose cells hold none.
proof fn lemma_rows_begin_none(bs: Seq<BenchmarkView>)
    requires
        forall|i: int|
            0 <= i < bs.len() ==> (#[trigger] bs[i]).day.wf() && cells_hold_no_marker(bs[i]),
    ensures
        begins_none(rows_text(bs), marker()),
    decreases bs.len(),
{
    reveal_strlit("\n");
    lemma_marker_angle();
    if bs.len() > 0 {
        lemma_rows_begin_none(bs.drop_last());
        assert(bs[bs.len() - 1].day.wf());
        lemma_row_begins_none(bs.last());
        lemma_begins_none_lacking("\n"@, marker());
        lemma_begins_none_concat(rows_text(bs.drop_last()), row_text(bs.last()), marker());
        lemma_begins_none_concat(
            rows_text(bs.drop_last()) + row_text(bs.last()),
            "\n"@,
            marker(),
        );
    }
}

/// The heading of the table has no `<` where its prefix has none.
proof fn lemma_head_lacks_angle(prefix: Seq<char>)
    requires
        lacks(prefix, '<'),
    ensures
        lacks(head_text(prefix), '<'),
{
    reveal_strlit("\n");
    reveal_strlit(" Benchmarks\n\n| Day | Part 1 | Part 2 |\n| :---: | :---: | :---:  |\n");
    lemma_lacks_concat("\n"@, prefix, '<');
    lemma_lacks_concat(
        "\n"@ + prefix,
        " Benchmarks\n\n| Day | Part 1 | Part 2 |\n| :---: | :---: | :---:  |\n"@,
        '<',
    );
}

/// The line of the total time has no `<`.
proof fn lemma_foot_lacks_angle(total: Span)
    ensures
        lacks(foot_text(total), '<'),
{
    reveal_strlit("\n**Total time: ");
    reveal_strlit("ms**\n\n");
    let c = centimillis(total);
    lemma_decimal_text_is_digits(c / 100);
    lemma_digits_lack_angle(decimal_text(c / 100));
    let decimals = seq!['.', digit_char(c / 10 % 10), digit_char(c % 10)];
    assert(lacks(decimals, '<'));
    lemma_lacks_concat(decimal_text(c / 100), decimals, '<');
    lemma_lacks_concat("\n**Total time: "@, millis_text(total), '<');
    lemma_lacks_concat("\n**Total time: "@ + millis_text(total), "ms**\n\n"@, '<');
}

/// The marker begins with `<` and has no other.
proof fn lemma_marker_angle()
    ensures
        marker().len() == 29,
        marker()[0] == '<',
        lacks(marker().skip(1), '<'),
        lacks(marker(), '`'),
{
    reveal_strlit("<!--- benchmarking table --->");
    assert forall|i: int| 0 <= i < marker().skip(1).len() implies marker().skip(1)[i] != '<' by {
        assert(marker().skip(1)[i] == marker()[i + 1]);
    }
}

/// A table whose cells hold no marker, and whose heading prefix has no `<`,
/// holds the marker at its start, at its end and nowhere else.
pub proof fn lemma_table_holds_two_markers(prefix: Seq<char>, bs: Seq<BenchmarkView>, total: Span)
    requires
        lacks(prefix, '<'),
        forall|i: int|
            0 <= i < bs.len() ==> (#[trigger] bs[i]).day.wf() && cells_hold_no_marker(bs[i]),
    ensures
        marker_positions(table_text(prefix, bs, total)) == seq![
            0int,
            table_text(prefix, bs, total).len() - marker().len(),
        ],
{
    let inner = head_text(prefix) + rows_text(bs) + foot_text(total);
    lemma_marker_angle();
    lemma_head_lacks_angle(prefix);
    lemma_begins_none_lacking(head_text(prefix), marker());
    lemma_rows_begin_none(bs);
    lemma_foot_lacks_angle(total);
    lemma_begins_none_lacking(foot_text(total), marker());
    lemma_begins_none_concat(head_text(prefix), rows_text(bs), marker());
    lemma_begins_none_concat(head_text(prefix) + rows_text(bs), foot_text(total), marker());
    lemma_bracketed_occurrences(marker(), inner);
    assert(table_text(prefix, bs, total) =~= marker() + inner + marker());
}

/// Updating a document twice with benchmarks whose cells hold no marker is
/// the same as updating it once: the document again holds exactly two
/// markers, and the second update leaves it as it is.
pub proof fn lemma_update_twice(doc: Seq<char>, bs: Seq<BenchmarkView>, total: Span)
    requires
        marker_positions(doc).len() == 2,
        forall|i: int|
            0 <= i < bs.len() ==> (#[trigger] bs[i]).day.wf() && cells_hold_no_marker(bs[i]),
    ensures
        table_span(patched(doc, table_text("##"@, bs, total))) is Ok,
        patched(patched(doc, table_text("##"@, bs, total)), table_text("##"@, bs, total))
            == patched(doc, table_text("##"@, bs, total)),
{
    reveal_strlit("##");
    lemma_table_holds_two_markers("##"@, bs, total);
    lemma_patch_is_idempotent(doc, table_text("##"@, bs, total));
}

/// Updating a document twice with the same benchmarks is the same as
/// updating it once.
///
/// Take a document with exactly two markers, and benchmarks whose rendered
/// table holds the marker nowhere but at its two ends. The updated document
/// again holds exactly two markers, and a second update with the same
/// benchmarks leaves it as it is.
pub proof fn lemma_update_is_idempotent(
    doc: Seq<char>,
    prefix: Seq<char>,
    bs: Seq<BenchmarkView>,
    total: Span,
)
    requires
        marker_positions(doc).len() == 2,
        marker_positions(table_text(prefix, bs, total)).len() == 2,
    ensures
        marker_positions(patched(doc, table_text(prefix, bs, total))).len() == 2,
        table_span(patched(doc, table_text(prefix, bs, total))) is Ok,
        patched(patched(doc, table_text(prefix, bs, total)), table_text(prefix, bs, total))
            == patched(doc, table_text(prefix, bs, total)),
{
    reveal_strlit("<!--- benchmarking table --->");
    let table = table_text(prefix, bs, total);
    let found = marker_positions(table);
    let end = table.len() - marker().len();
    lemma_table_ends_in_markers(prefix, bs, total);
    lemma_occurrences(table, marker());
    let i = choose|i: int| 0 <= i < found.len() && found[i] == 0;
    let j = choose|j: int| 0 <= j < found.len() && found[j] == end;
    assert(found[0] < found[1]);
    assert(found =~= seq![0int, end]);
    lemma_patch_is_idempotent(doc, table);
}

/// Where the solution of a day lives.
#[must_use]
pub fn get_path_for_bin(day: Day) -> (r: String)
    ensures
        r@ == path_for_bin(day.value()),
{
    let mut r = "./src/bin/".to_owned();
    let d = day.to_string();
    r.append(d.as_str());
    r.append(".rs");
    r
}

/// Finds the table in a document. The document must hold the marker exactly
/// twice; each other count has an error message of its own.
pub fn locate_table(readme: &str) -> (r: Result<TablePosition, Error>)
    ensures
        match table_span(readme@) {
            Ok(span) => (r matches Ok(pos) && pos.start() == span.0 && pos.end() == span.1),
            Err(message) => (r matches Err(Error::Parser(m)) && m@ == message),
        },
{
    let cs = to_chars(readme);
    let pat = to_chars(MARKER);
    let matches = find_all(cs.as_slice(), pat.as_slice());
    let ghost found = marker_positions(readme@);
    assert(matches@.map_values(|p: usize| p as int) == found);
    assert(matches@.len() == found.len());
    if matches.len() > 2 {
        return Err(Error::Parser("Too many occurrences of marker in document.".to_owned()));
    }
    if matches.len() == 0 {
        return Err(Error::Parser("Could not find table start position.".to_owned()));
    }
    if matches.len() == 1 {
        return Err(Error::Parser("Could not find table end position.".to_owned()));
    }
    let pos_start = matches[0];
    let last = matches[1];
    proof {
        lemma_occurrences_below(readme@, marker(), readme@.len() as int + 1);
        assert(found[0] == pos_start);
        assert(found[1] == last);
        assert(occurs_at(readme@, marker(), found[1]));
    }
    Ok(TablePosition { pos_start, pos_end: last + pat.len() })
}

/// Appends the two cells of one part to `out`.
fn push_cell(out: &mut String, part: &Option<(String, String)>)
    ensures
        final(out)@ == old(out)@ + "`"@ + cell(pair_view(*part)).0 + "` `"@ + cell(
            pair_view(*part),
        ).1 + "`"@,
{
    out.append("`");
    match part {
        Some((time, memory)) => {
            out.append(time.as_str());
            out.append("` `");
            out.append(memory.as_str());
        },
        None => {
            out.append("-");
            out.append("` `");
            out.append("-");
        },
    }
    out.append("`");
}

/// Appends the table row of one day to `out`, without a line end.
fn push_row(out: &mut String, bench: &Benchmark)
    ensures
        final(out)@ == old(out)@ + row_text(bench@),
{
    let day = bench.day.into_inner();
    let path = get_path_for_bin(bench.day);
    out.append("| [Day ");
    push_decimal(out, day as u128);
    out.append("](");
    out.append(path.as_str());
    out.append(") | ");
    push_cell(out, &bench.part_1);
    out.append(" | ");
    push_cell(out, &bench.part_2);
    out.append(" |");
    proof {
        reveal_strlit(") | `");
        reveal_strlit(") | ");
        reveal_strlit("`");
        reveal_strlit("` | `");
        reveal_strlit(" | ");
        reveal_strlit("` |");
        reveal_strlit(" |");
        assert(") | `"@ =~= ") | "@ + "`"@);
        assert("` | `"@ =~= "`"@ + " | "@ + "`"@);
        assert("` |"@ =~= "`"@ + " |"@);
        assert(out@ =~= old(out)@ + row_text(bench@));
    }
}

/// Renders the table: the marker, a heading that begins with `prefix`, one
/// row for each benchmark in the order given, the total time in
/// milliseconds, and the marker again.
pub fn construct_table(prefix: &str, benchmarks: Vec<Benchmark>, total: Nanos) -> (r: String)
    ensures
        r@ == table_text(prefix@, views(benchmarks@), total@),
{
    let mut out = MARKER.to_owned();
    out.append("\n");
    out.append(prefix);
    out.append(" Benchmarks\n\n| Day | Part 1 | Part 2 |\n| :---: | :---: | :---:  |\n");
    assert(out@ =~= marker() + head_text(prefix@));
    let ghost all = views(benchmarks@);
    let mut i: usize = 0;
    assert(all.take(0) =~= Seq::<BenchmarkView>::empty());
    while i < benchmarks.len()
        invariant
            i <= benchmarks.len(),
            all == views(benchmarks@),
            out@ == marker() + head_text(prefix@) + rows_text(all.take(i as int)),
        decreases benchmarks.len() - i,
    {
        let ghost before = out@;
        push_row(&mut out, &benchmarks[i]);
        out.append("\n");
        proof {
            assert(all.take(i + 1).drop_last() =~= all.take(i as int));
            assert(all.take(i + 1).last() == benchmarks@[i as int]@);
            assert(out@ =~= marker() + head_text(prefix@) + rows_text(all.take(i + 1)));
        }
        i += 1;
    }
    assert(all.take(benchmarks.len() as int) =~= all);
    let shown = total.to_millis_string();
    out.append("\n**Total time: ");
    out.append(shown.as_str());
    out.append("ms**\n\n");
    out.append(MARKER);
    assert(out@ =~= table_text(prefix@, all, total@));
    out
}

/// Replaces the table of the document `s` by a fresh one made of `timings`
/// and `total`. The document must hold the marker exactly twice; on each
/// other count it is left as it was and the error says which count it is.
pub fn update_content(s: &mut String, timings: Vec<Benchmark>, total: Nanos) -> (r: Result<
    (),
    Error,
>)
    ensures
        match table_span(old(s)@) {
            Ok(span) => r.is_ok() && final(s)@ == patched(
                old(s)@,
                table_text("##"@, views(timings@), total@),
            ),
            Err(message) => (r matches Err(Error::Parser(m)) && m@ == message) && final(s)@ == old(
                s,
            )@,
        },
{
    let positions = match locate_table(s.as_str()) {
        Ok(positions) => positions,
        Err(e) => {
            return Err(e);
        },
    };
    let table = construct_table("##", timings, total);
    let cs = to_chars(s.as_str());
    proof {
        lemma_occurrences_below(s@, marker(), s@.len() as int + 1);
        assert(occurs_at(s@, marker(), marker_positions(s@)[0]));
        assert(occurs_at(s@, marker(), marker_positions(s@)[1]));
    }
    let n = cs.len();
    let mut out = String::new();
    push_chars(&mut out, slice_subrange(cs.as_slice(), 0, positions.pos_start));
    out.append(table.as_str());
    push_chars(&mut out, slice_subrange(cs.as_slice(), positions.pos_end, n));
    assert(out@ =~= patched(old(s)@, table@));
    *s = out;
    Ok(())
}

} // verus!
