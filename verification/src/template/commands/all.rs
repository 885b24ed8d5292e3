//! Running every solution and reading its measurements.
//!
//! A solution prints one line for each part, such as
//! `Part 1: 42 (74.13ms @ 100 samples) (10KB)`: a label, the answer, the time
//! of one run with the number of runs it was measured over, and the memory
//! that was allocated. A line without ` samples)` is one of a run that was
//! not timed. [`parse_line`] reads such a line, [`parse_exec_bench`] gathers
//! the lines of one day into a [`Benchmark`].
//!
//! Times are kept exactly, whatever the number of their digits. A duration
//! is a plain decimal number and a unit; see [`duration`].

use vstd::prelude::*;
use vstd::string::StringExecFns;
use crate::day::{padded, Day};
use crate::decimal::{
    decimal_number, decimal_scale, is_decimal, is_digit, lemma_decimal_chars, parse_decimal,
    point, pow10,
};
use crate::digits::shifted;
use crate::nanos::{millis_text, no_time, plus, Nanos, Span};
use crate::template::readme_benchmarks::{path_for_bin, views, Benchmark, BenchmarkView};
use crate::text::{
    after_last, before_first, contains, holds, is_trimmed, is_whitespace, lacks,
    lemma_absent_lacking, lemma_absent_lacking_any, lemma_after_last_lacking,
    lemma_before_first_lacking, lemma_before_first_split, lemma_lacks_concat,
    lemma_occurs_in_front, lemma_trim_keeps_last, lemma_trim_one_trailing, occurs_at,
    take_after_last, take_before_first, to_chars, to_text, trim, trimmed,
};

verus! {

/// Switches the terminal to italic type.
pub const ANSI_ITALIC: &'static str = "\x1b[3m";

/// Switches the terminal to bold type.
pub const ANSI_BOLD: &'static str = "\x1b[1m";

/// Switches the terminal back to plain type.
pub const ANSI_RESET: &'static str = "\x1b[0m";

/// What is said of a day without output.
pub const NOT_SOLVED: &'static str = "Not solved.";

/// Why a solution could not be run.
#[derive(Debug)]
pub enum Error {
    /// An output stream of the solution could not be taken.
    BrokenPipe,
    /// The output of the solution could not be read.
    Parser(String),
    /// The solution could not be started or waited for.
    IO(std::io::Error),
}

impl From<std::io::Error> for Error {
    fn from(e: std::io::Error) -> (r: Self) {
        Error::IO(e)
    }
}

impl vstd::std_specs::convert::FromSpecImpl<std::io::Error> for Error {
    open spec fn obeys_from_spec() -> bool {
        true
    }

    open spec fn from_spec(e: std::io::Error) -> Self {
        Error::IO(e)
    }
}

/// One measurement, as a line of output gave it.
#[derive(Clone, Debug)]
pub struct Measurement {
    /// The text before the first colon.
    pub part_label: String,
    /// The time as it was printed; empty where the line has no timing.
    pub time_display: String,
    /// The time; zero where the line has no timing.
    pub time_nanos: Nanos,
    /// The memory figure as it was printed.
    pub memory_display: String,
}

/// A [`Measurement`] as plain values.
pub ghost struct MeasurementView {
    pub part_label: Seq<char>,
    pub time_display: Seq<char>,
    pub time: Span,
    pub memory_display: Seq<char>,
}

impl View for Measurement {
    type V = MeasurementView;

    open spec fn view(&self) -> MeasurementView {
        MeasurementView {
            part_label: self.part_label@,
            time_display: self.time_display@,
            time: self.time_nanos@,
            memory_display: self.memory_display@,
        }
    }
}

/// Why a line is no measurement.
#[derive(Clone, Copy, Debug, PartialEq, Eq, Structural)]
pub enum Rejection {
    /// The line has no colon, and so no label.
    NoLabel,
    /// The line has no memory figure.
    NoMemory,
    /// The line is timed, but its time cannot be read.
    BadTiming,
}

/// What stands in the last parentheses of a line: what follows the last
/// `) (`, or, in a line without `) (`, what follows the last `(`; in either
/// case up to the next `)`. A line without `(` has no parentheses.
pub open spec fn last_parentheses(line: Seq<char>) -> Option<Seq<char>> {
    if contains(line, ") ("@) {
        Some(before_first(after_last(line, ") ("@), ")"@))
    } else if contains(line, "("@) {
        Some(before_first(after_last(line, "("@), ")"@))
    } else {
        None
    }
}

/// The memory figure of a line: what stands in its last parentheses,
/// trimmed. It counts only if it holds a `B`.
pub open spec fn heap_allocation(line: Seq<char>) -> Option<Seq<char>> {
    match last_parentheses(line) {
        Some(inner) => if contains(trim(inner), "B"@) {
            Some(trim(inner))
        } else {
            None
        },
        None => None,
    }
}

/// The duration token of a line: of what stands before the first
/// ` samples)`, the part after the last `(`, up to the first `@`, trimmed.
/// Where one of these anchors is missing, the text is not cut there.
pub open spec fn timing_token(line: Seq<char>) -> Seq<char> {
    trim(before_first(after_last(before_first(line, " samples)"@), "("@), "@"@))
}

/// The span of `number` units of `10^exponent` nanoseconds each, where
/// `number` is a decimal number: exactly its value times the unit.
pub open spec fn span_of(number: Seq<char>, exponent: nat) -> Option<Span> {
    if is_decimal(number) {
        Some(
            Span {
                num: decimal_number(number) * pow10(exponent),
                scale: decimal_scale(number),
            },
        )
    } else {
        None
    }
}

/// The span of what stands in `token` before the first `postfix`.
pub open spec fn number_before(token: Seq<char>, postfix: Seq<char>, exponent: nat) -> Option<
    Span,
> {
    span_of(before_first(token, postfix), exponent)
}

/// The time that a duration token denotes. The unit is the first of `ns`,
/// `µs`, `ms` that the token holds, else seconds; the number is what
/// stands before the unit (before the first `s`, if any, for seconds). A
/// microsecond is a thousand nanoseconds, and each further unit a thousand
/// of the one before.
pub open spec fn duration(token: Seq<char>) -> Option<Span> {
    if contains(token, "ns"@) {
        number_before(token, "ns"@, 0)
    } else if contains(token, "\u{b5}s"@) {
        number_before(token, "\u{b5}s"@, 3)
    } else if contains(token, "ms"@) {
        number_before(token, "ms"@, 6)
    } else {
        number_before(token, "s"@, 9)
    }
}

/// The power of ten of nanoseconds that a unit stands for, if `unit` is one
/// of `ns`, `µs`, `ms` and `s`.
pub open spec fn unit_exponent(unit: Seq<char>) -> Option<nat> {
    if unit == "ns"@ {
        Some(0)
    } else if unit == "\u{b5}s"@ {
        Some(3)
    } else if unit == "ms"@ {
        Some(6)
    } else if unit == "s"@ {
        Some(9)
    } else {
        None
    }
}

/// The timing of a line: its duration token and the time that it denotes.
pub open spec fn timing(line: Seq<char>) -> Option<(Seq<char>, Span)> {
    match duration(timing_token(line)) {
        Some(time) => Some((timing_token(line), time)),
        None => None,
    }
}

/// What a line of output says.
///
/// The label is the text before the first colon. A line without a colon or
/// without a memory figure is no measurement. A line that lacks
/// ` samples)` is an untimed measurement; any other line must have a
/// readable timing.
pub open spec fn measurement(line: Seq<char>) -> Result<MeasurementView, Rejection> {
    if !contains(line, ":"@) {
        Err(Rejection::NoLabel)
    } else if heap_allocation(line) is None {
        Err(Rejection::NoMemory)
    } else if !contains(line, " samples)"@) {
        Ok(
            MeasurementView {
                part_label: before_first(line, ":"@),
                time_display: Seq::empty(),
                time: no_time(),
                memory_display: heap_allocation(line)->0,
            },
        )
    } else {
        match timing(line) {
            None => Err(Rejection::BadTiming),
            Some((token, time)) => Ok(
                MeasurementView {
                    part_label: before_first(line, ":"@),
                    time_display: token,
                    time,
                    memory_display: heap_allocation(line)->0,
                },
            ),
        }
    }
}

/// The benchmark of a day before any measurement.
pub open spec fn empty_benchmark(day: Day) -> BenchmarkView {
    BenchmarkView { day, part_1: None, part_2: None, total: no_time() }
}

/// The benchmark `b` with the measurement `m` taken in. A label that holds
/// `Part 1` sets the first column; else one that holds `Part 2` sets the
/// second. The time counts towards the total whatever the label.
pub open spec fn record(b: BenchmarkView, m: MeasurementView) -> BenchmarkView {
    let shown = Some((m.time_display, m.memory_display));
    let first = contains(m.part_label, "Part 1"@);
    let second = !first && contains(m.part_label, "Part 2"@);
    BenchmarkView {
        day: b.day,
        part_1: if first {
            shown
        } else {
            b.part_1
        },
        part_2: if second {
            shown
        } else {
            b.part_2
        },
        total: plus(b.total, m.time),
    }
}

/// The benchmark of a day from the lines of its output, in their order:
/// every measurement among them is taken in, every other line is skipped.
pub open spec fn benchmark_of(lines: Seq<Seq<char>>, day: Day) -> BenchmarkView
    decreases lines.len(),
{
    if lines.len() == 0 {
        empty_benchmark(day)
    } else {
        let before = benchmark_of(lines.drop_last(), day);
        match measurement(lines.last()) {
            Ok(m) => record(before, m),
            Err(_) => before,
        }
    }
}

/// The time of all measurements among `lines` together.
pub open spec fn total_time(lines: Seq<Seq<char>>) -> Span
    decreases lines.len(),
{
    if lines.len() == 0 {
        no_time()
    } else {
        match measurement(lines.last()) {
            Ok(m) => plus(total_time(lines.drop_last()), m.time),
            Err(_) => total_time(lines.drop_last()),
        }
    }
}

/// The total of a day's benchmark is the time of all its measurements
/// together, whatever their labels.
pub proof fn lemma_total_counts_every_measurement(lines: Seq<Seq<char>>, day: Day)
    ensures
        benchmark_of(lines, day).total == total_time(lines),
        benchmark_of(lines, day).day == day,
    decreases lines.len(),
{
    if lines.len() > 0 {
        lemma_total_counts_every_measurement(lines.drop_last(), day);
    }
}

/// What is reported of a line that was refused for the reason `why`:
/// nothing where the line simply is no measurement, else a message that
/// quotes the line.
pub open spec fn diagnostic_text(line: Seq<char>, why: Rejection) -> Option<Seq<char>> {
    match why {
        Rejection::NoLabel => None,
        Rejection::NoMemory => Some("Could not parse heap allocation from line: "@ + line),
        Rejection::BadTiming => Some("Could not parse timings from line: "@ + line),
    }
}

/// What is reported of a line: the message of its refusal, if it has one.
pub open spec fn line_diagnostic(line: Seq<char>) -> Option<Seq<char>> {
    match measurement(line) {
        Ok(_) => None,
        Err(why) => diagnostic_text(line, why),
    }
}

/// The messages for the lines of an output, in the order of the lines.
pub open spec fn diagnostics_of(lines: Seq<Seq<char>>) -> Seq<Seq<char>>
    decreases lines.len(),
{
    if lines.len() == 0 {
        Seq::empty()
    } else {
        match line_diagnostic(lines.last()) {
            Some(message) => diagnostics_of(lines.drop_last()).push(message),
            None => diagnostics_of(lines.drop_last()),
        }
    }
}

/// The arguments that run the solution of a day: the day as two digits,
/// `--release` for an optimised build, and behind `--` the flag that asks
/// the solution to time itself.
pub open spec fn solution_args(day: int, is_timed: bool, is_release: bool) -> Seq<Seq<char>> {
    seq!["run"@, "--quiet"@, "--bin"@, padded(day)] + (if is_release {
        seq!["--release"@]
    } else {
        Seq::empty()
    }) + (if is_timed {
        seq!["--"@, "--time"@]
    } else {
        Seq::empty()
    })
}

/// What is shown before the solution of a day runs: an empty line between
/// two days, the day in bold, and a rule.
pub open spec fn day_header_text(day: int) -> Seq<char> {
    (if day > 1 {
        "\n"@
    } else {
        Seq::empty()
    }) + ANSI_BOLD@ + "Day "@ + padded(day) + ANSI_RESET@ + "\n------"@
}

/// What is shown at the end of a timed run: after an empty line, the time
/// of the whole run in milliseconds.
pub open spec fn total_line_text(total: Span) -> Seq<char> {
    "\n"@ + ANSI_BOLD@ + "Total:"@ + ANSI_RESET@ + " "@ + ANSI_ITALIC@ + millis_text(total) + "ms"@
        + ANSI_RESET@
}

/// The totals of `bs` together.
pub open spec fn sum_of_totals(bs: Seq<BenchmarkView>) -> Span
    decreases bs.len(),
{
    if bs.len() == 0 {
        no_time()
    } else {
        plus(sum_of_totals(bs.drop_last()), bs.last().total)
    }
}

/// A decimal number has none of the letters that units are written with.
proof fn lemma_number_has_no_unit(number: Seq<char>)
    requires
        is_decimal(number),
    ensures
        lacks(number, 'n'),
        lacks(number, 'm'),
        lacks(number, 's'),
        lacks(number, '\u{b5}'),
{
    lemma_decimal_chars(number);
    assert forall|i: int| 0 <= i < number.len() implies number[i] != 'n' && number[i] != 'm'
        && number[i] != 's' && number[i] != '\u{b5}' by {
        assert(is_digit(number[i]) || number[i] == '.');
    }
}

/// A decimal number followed by `ns` counts nanoseconds.
proof fn lemma_duration_nanos(number: Seq<char>)
    requires
        is_decimal(number),
    ensures
        duration(number + "ns"@) == span_of(number, 0),
{
    reveal_strlit("ns");
    lemma_number_has_no_unit(number);
    let none = Seq::<char>::empty();
    assert(number + "ns"@ =~= number + "ns"@ + none);
    lemma_before_first_lacking(number, "ns"@, none);
}

/// A decimal number followed by `µs` counts microseconds.
proof fn lemma_duration_micros(number: Seq<char>)
    requires
        is_decimal(number),
    ensures
        duration(number + "\u{b5}s"@) == span_of(number, 3),
{
    reveal_strlit("ns");
    reveal_strlit("\u{b5}s");
    lemma_number_has_no_unit(number);
    let none = Seq::<char>::empty();
    let token = number + "\u{b5}s"@;
    assert(lacks(token, 'n'));
    lemma_absent_lacking(token, "ns"@);
    assert(token =~= number + "\u{b5}s"@ + none);
    lemma_before_first_lacking(number, "\u{b5}s"@, none);
}

/// A decimal number followed by `ms` counts milliseconds.
proof fn lemma_duration_millis(number: Seq<char>)
    requires
        is_decimal(number),
    ensures
        duration(number + "ms"@) == span_of(number, 6),
{
    reveal_strlit("ns");
    reveal_strlit("\u{b5}s");
    reveal_strlit("ms");
    lemma_number_has_no_unit(number);
    let none = Seq::<char>::empty();
    let token = number + "ms"@;
    assert(lacks(token, 'n'));
    assert(lacks(token, '\u{b5}'));
    lemma_absent_lacking(token, "ns"@);
    lemma_absent_lacking(token, "\u{b5}s"@);
    assert(token =~= number + "ms"@ + none);
    lemma_before_first_lacking(number, "ms"@, none);
}

/// A decimal number followed by `s`, or by nothing, counts seconds.
proof fn lemma_duration_seconds(number: Seq<char>)
    requires
        is_decimal(number),
    ensures
        duration(number + "s"@) == span_of(number, 9),
        duration(number) == span_of(number, 9),
{
    reveal_strlit("ns");
    reveal_strlit("\u{b5}s");
    reveal_strlit("ms");
    reveal_strlit("s");
    lemma_number_has_no_unit(number);
    let none = Seq::<char>::empty();
    let token = number + "s"@;
    assert(lacks(token, 'n'));
    assert(lacks(token, '\u{b5}'));
    assert(lacks(token, 'm'));
    lemma_absent_lacking(token, "ns"@);
    lemma_absent_lacking(token, "\u{b5}s"@);
    lemma_absent_lacking(token, "ms"@);
    assert(token =~= number + "s"@ + none);
    lemma_before_first_lacking(number, "s"@, none);
    lemma_absent_lacking(number, "ns"@);
    lemma_absent_lacking(number, "\u{b5}s"@);
    lemma_absent_lacking(number, "ms"@);
    lemma_absent_lacking(number, "s"@);
}

/// A decimal number followed by a unit denotes exactly that number of the
/// unit: of nanoseconds, thousands, millions or thousand millions of
/// them. A number without a unit counts seconds.
pub proof fn lemma_duration_of_number(number: Seq<char>)
    requires
        is_decimal(number),
    ensures
        duration(number + "ns"@) == span_of(number, 0),
        duration(number + "\u{b5}s"@) == span_of(number, 3),
        duration(number + "ms"@) == span_of(number, 6),
        duration(number + "s"@) == span_of(number, 9),
        duration(number) == span_of(number, 9),
{
    lemma_duration_nanos(number);
    lemma_duration_micros(number);
    lemma_duration_millis(number);
    lemma_duration_seconds(number);
}

/// A timed measurement line, put together from its parts.
pub open spec fn timed_line(
    label: Seq<char>,
    value: Seq<char>,
    duration: Seq<char>,
    samples: Seq<char>,
    memory: Seq<char>,
) -> Seq<char> {
    label + ": "@ + value + " ("@ + duration + " @ "@ + samples + " samples) ("@ + memory + "B)"@
}

/// What of a timed measurement line stands before the parenthesis that
/// closes its samples.
pub open spec fn timed_front(
    label: Seq<char>,
    value: Seq<char>,
    duration: Seq<char>,
    samples: Seq<char>,
) -> Seq<char> {
    label + ": "@ + value + " ("@ + duration + " @ "@ + samples + " samples"@
}

/// The label of a line is what stands before its first colon.
proof fn lemma_label(label: Seq<char>, rest: Seq<char>)
    requires
        lacks(label, ':'),
    ensures
        contains(label + ": "@ + rest, ":"@),
        before_first(label + ": "@ + rest, ":"@) == label,
{
    reveal_strlit(": ");
    reveal_strlit(":");
    reveal_strlit(" ");
    assert(label + ": "@ + rest =~= label + ":"@ + (" "@ + rest));
    lemma_before_first_lacking(label, ":"@, " "@ + rest);
}

/// The first ` samples)` of a line is the one that its front leads up to.
proof fn lemma_timed_part(timed: Seq<char>, rest: Seq<char>)
    requires
        !contains(timed + " samples"@, " samples)"@),
    ensures
        contains(timed + " samples) ("@ + rest, " samples)"@),
        before_first(timed + " samples) ("@ + rest, " samples)"@) == timed,
{
    reveal_strlit(" samples");
    reveal_strlit(" samples)");
    reveal_strlit(" samples) (");
    reveal_strlit(" (");
    reveal_strlit(")");
    let pat = " samples)"@;
    let line = timed + " samples) ("@ + rest;
    let front = timed + " samples"@;
    assert(line =~= timed + pat + (" ("@ + rest));
    assert(line =~= front + (")"@ + " ("@ + rest));
    assert forall|j: int| 0 <= j < timed.len() implies !occurs_at(line, pat, j) by {
        if occurs_at(line, pat, j) {
            lemma_occurs_in_front(front, ")"@ + " ("@ + rest, pat, j);
        }
    }
    lemma_before_first_split(timed, pat, " ("@ + rest);
}

/// The duration token is what stands between the last `(` before the
/// samples and the `@` that follows it.
proof fn lemma_duration_token(head: Seq<char>, duration: Seq<char>, samples: Seq<char>)
    requires
        lacks(duration, '('),
        lacks(duration, '@'),
        is_trimmed(duration),
        lacks(samples, '('),
    ensures
        trim(before_first(after_last(head + " ("@ + duration + " @ "@ + samples, "("@), "@"@))
            == duration,
{
    reveal_strlit(" (");
    reveal_strlit("(");
    reveal_strlit(" @ ");
    reveal_strlit("@");
    reveal_strlit(" ");
    let timed = head + " ("@ + duration + " @ "@ + samples;
    let mid = duration + " @ "@ + samples;
    assert(timed =~= (head + " "@) + "("@ + mid);
    let front = head + " "@;
    assert forall|j: int| front.len() < j <= front.len() + mid.len() implies timed[j] != "("@[0] by {
        let i = j - front.len() - 1;
        assert(timed[j] == mid[i]);
        if i < duration.len() {
            assert(mid[i] == duration[i]);
        } else if i < duration.len() + 3 {
            assert(mid[i] == " @ "@[i - duration.len()]);
        } else {
            assert(mid[i] == samples[i - duration.len() - 3]);
        }
    }
    lemma_after_last_lacking(head + " "@, "("@, mid);
    let shown = duration + " "@;
    assert(mid =~= shown + "@"@ + (" "@ + samples));
    assert forall|i: int| 0 <= i < shown.len() implies shown[i] != '@' by {
        if i < duration.len() {
            assert(shown[i] == duration[i]);
        }
    }
    lemma_before_first_lacking(shown, "@"@, " "@ + samples);
    assert(shown =~= duration.push(' '));
    lemma_trim_one_trailing(duration, ' ');
}

/// What stands behind the last `) (` of a line that ends in a memory
/// figure is that figure and its closing parenthesis.
proof fn lemma_memory_tail(front: Seq<char>, memory: Seq<char>)
    requires
        lacks(memory, ')'),
    ensures
        contains(front + ") ("@ + memory + "B)"@, ") ("@),
        after_last(front + ") ("@ + memory + "B)"@, ") ("@) == memory + "B)"@,
{
    reveal_strlit(") (");
    reveal_strlit("B)");
    let line = front + ") ("@ + memory + "B)"@;
    let tail = memory + "B)"@;
    assert(line =~= front + ") ("@ + tail);
    assert forall|j: int| front.len() < j <= front.len() + tail.len() implies line[j]
        != ") ("@[0] by {
        if j < front.len() + 3 {
            assert(line[j] == ") ("@[j - front.len()]);
        } else {
            let i = j - front.len() - 3;
            assert(line[j] == tail[i]);
            if i < memory.len() {
                assert(tail[i] == memory[i]);
            } else {
                assert(tail[i] == "B)"@[i - memory.len()]);
            }
        }
    }
    lemma_after_last_lacking(front, ") ("@, tail);
}

/// A memory figure that ends in `B` is found in its parentheses, trimmed.
proof fn lemma_memory_shown(memory: Seq<char>)
    requires
        lacks(memory, ')'),
    ensures
        before_first(memory + "B)"@, ")"@) == memory + "B"@,
        contains(trim(memory + "B"@), "B"@),
{
    reveal_strlit("B)");
    reveal_strlit("B");
    reveal_strlit(")");
    let tail = memory + "B)"@;
    let figure = memory + "B"@;
    assert(tail =~= figure + ")"@ + Seq::<char>::empty());
    assert forall|i: int| 0 <= i < figure.len() implies figure[i] != ')' by {
        if i < memory.len() {
            assert(figure[i] == memory[i]);
        }
    }
    lemma_before_first_lacking(figure, ")"@, Seq::<char>::empty());
    assert(figure.last() == 'B');
    lemma_trim_keeps_last(figure);
    let shown = trim(figure);
    assert(occurs_at(shown, "B"@, shown.len() - 1));
}

/// The memory figure is what stands in the last parentheses of the line.
proof fn lemma_memory_figure(front: Seq<char>, memory: Seq<char>)
    requires
        lacks(memory, ')'),
    ensures
        heap_allocation(front + ") ("@ + memory + "B)"@) == Some(trim(memory + "B"@)),
{
    lemma_memory_tail(front, memory);
    lemma_memory_shown(memory);
}

/// A well-formed timed line is read as it was written.
///
/// Take a line `<label>: <value> (<shown> @ <samples> samples) (<memory>B)`
/// whose label has no colon, whose duration is trimmed and has neither `(`
/// nor `@`, whose sample count has no `(`, whose memory figure has no `)`,
/// and in which ` samples)` does not occur before its place. Whatever else
/// the label and the value hold, the line is read with that label, that
/// shown as the time shown, the time that the shown denotes, and the
/// trimmed memory figure; it is refused only where the shown denotes no
/// time.
pub proof fn lemma_timed_line_is_read(
    label: Seq<char>,
    value: Seq<char>,
    shown: Seq<char>,
    samples: Seq<char>,
    memory: Seq<char>,
)
    requires
        lacks(label, ':'),
        lacks(shown, '('),
        lacks(shown, '@'),
        is_trimmed(shown),
        lacks(samples, '('),
        lacks(memory, ')'),
        !contains(timed_front(label, value, shown, samples), " samples)"@),
    ensures
        measurement(timed_line(label, value, shown, samples, memory)) == match duration(shown) {
            Some(time) => Ok(
                MeasurementView {
                    part_label: label,
                    time_display: shown,
                    time,
                    memory_display: trim(memory + "B"@),
                },
            ),
            None => Err(Rejection::BadTiming),
        },
{
    let line = timed_line(label, value, shown, samples, memory);
    let head = label + ": "@ + value;
    let timed = head + " ("@ + shown + " @ "@ + samples;
    let tail = memory + "B)"@;
    reveal_strlit(" samples");
    reveal_strlit(" samples) (");
    reveal_strlit(") (");
    assert(line =~= label + ": "@ + (value + " ("@ + shown + " @ "@ + samples + " samples) ("@
        + memory + "B)"@));
    lemma_label(
        label,
        value + " ("@ + shown + " @ "@ + samples + " samples) ("@ + memory + "B)"@,
    );
    assert(line =~= timed + " samples) ("@ + tail);
    assert(timed + " samples"@ =~= timed_front(label, value, shown, samples));
    lemma_timed_part(timed, tail);
    lemma_duration_token(head, shown, samples);
    assert(line =~= (timed + " samples"@) + ") ("@ + memory + "B)"@);
    lemma_memory_figure(timed + " samples"@, memory);
}

/// A decimal number followed by a unit is a duration token as the reading
/// of a line needs it: trimmed, and without parenthesis or `@`.
proof fn lemma_duration_is_plain(number: Seq<char>, unit: Seq<char>)
    requires
        is_decimal(number),
        unit_exponent(unit) is Some,
    ensures
        lacks(number + unit, '('),
        lacks(number + unit, ')'),
        lacks(number + unit, '@'),
        is_trimmed(number + unit),
        duration(number + unit) == span_of(number, unit_exponent(unit)->0),
{
    reveal_strlit("ns");
    reveal_strlit("\u{b5}s");
    reveal_strlit("ms");
    reveal_strlit("s");
    lemma_decimal_chars(number);
    lemma_duration_of_number(number);
    let shown = number + unit;
    assert(number.len() > 0) by {
        if number.len() == 0 {
            assert(before_first(number, point()).len() == 0);
        }
    }
    assert forall|i: int| 0 <= i < shown.len() implies shown[i] != '(' && shown[i] != ')'
        && shown[i] != '@' && !is_whitespace(shown[i]) by {
        if i < number.len() {
            assert(shown[i] == number[i]);
            assert(is_digit(number[i]) || number[i] == '.');
        } else {
            assert(shown[i] == unit[i - number.len()]);
        }
    }
    assert(shown[0] == number[0]);
}

/// A well-formed line is read exactly.
///
/// Take a line `<label>: <answer> (<number><unit> @ <samples> samples)
/// (<memory>B)` in which the number is a decimal number, the unit one of
/// `ns`, `µs`, `ms` and `s`, the label has no colon, the sample count no
/// `(`, and nothing before the memory figure, nor the figure itself, has a
/// `)` of its own. The line is a measurement; the time shown is the number
/// and the unit as they stand, and the time is the value of the number
/// times the unit, without any rounding.
pub proof fn lemma_well_formed_line(
    label: Seq<char>,
    answer: Seq<char>,
    number: Seq<char>,
    unit: Seq<char>,
    samples: Seq<char>,
    memory: Seq<char>,
)
    requires
        lacks(label, ':'),
        lacks(label, ')'),
        lacks(answer, ')'),
        is_decimal(number),
        unit_exponent(unit) is Some,
        lacks(samples, '('),
        lacks(samples, ')'),
        lacks(memory, ')'),
    ensures
        measurement(timed_line(label, answer, number + unit, samples, memory)) == Ok::<
            MeasurementView,
            Rejection,
        >(
            MeasurementView {
                part_label: label,
                time_display: number + unit,
                time: Span {
                    num: decimal_number(number) * pow10(unit_exponent(unit)->0),
                    scale: decimal_scale(number),
                },
                memory_display: trim(memory + "B"@),
            },
        ),
{
    reveal_strlit(": ");
    reveal_strlit(" (");
    reveal_strlit(" @ ");
    reveal_strlit(" samples");
    reveal_strlit(" samples)");
    let shown = number + unit;
    lemma_duration_is_plain(number, unit);
    let front = timed_front(label, answer, shown, samples);
    lemma_lacks_concat(label, ": "@, ')');
    lemma_lacks_concat(label + ": "@, answer, ')');
    lemma_lacks_concat(label + ": "@ + answer, " ("@, ')');
    lemma_lacks_concat(label + ": "@ + answer + " ("@, shown, ')');
    lemma_lacks_concat(label + ": "@ + answer + " ("@ + shown, " @ "@, ')');
    lemma_lacks_concat(label + ": "@ + answer + " ("@ + shown + " @ "@, samples, ')');
    lemma_lacks_concat(
        label + ": "@ + answer + " ("@ + shown + " @ "@ + samples,
        " samples"@,
        ')',
    );
    lemma_absent_lacking_any(front, " samples)"@, 8);
    lemma_timed_line_is_read(label, answer, shown, samples, memory);
}

/// A line that lacks ` samples)` has no time: it is a measurement exactly
/// where it has a colon and a memory figure, and then its time is zero and
/// the time shown is empty.
pub proof fn lemma_untimed_line(line: Seq<char>)
    requires
        !contains(line, " samples)"@),
    ensures
        measurement(line) is Ok <==> contains(line, ":"@) && heap_allocation(line) is Some,
        measurement(line) matches Ok(m) ==> m.time == no_time() && m.time_display.len() == 0
            && m.part_label == before_first(line, ":"@) && Some(m.memory_display)
            == heap_allocation(line),
{
}

/// An untimed line that ends in a memory figure is read as it was written.
///
/// Take a line `<label>: <answer>) (<memory>B)` without ` samples)`, whose
/// label has no colon and whose memory figure has no `)`. It is read with
/// that label, no time, and the trimmed memory figure.
pub proof fn lemma_untimed_line_is_read(label: Seq<char>, answer: Seq<char>, memory: Seq<char>)
    requires
        lacks(label, ':'),
        lacks(memory, ')'),
        !contains(label + ": "@ + answer + ") ("@ + memory + "B)"@, " samples)"@),
    ensures
        measurement(label + ": "@ + answer + ") ("@ + memory + "B)"@) == Ok::<
            MeasurementView,
            Rejection,
        >(
            MeasurementView {
                part_label: label,
                time_display: Seq::empty(),
                time: no_time(),
                memory_display: trim(memory + "B"@),
            },
        ),
{
    let line = label + ": "@ + answer + ") ("@ + memory + "B)"@;
    assert(line =~= label + ": "@ + (answer + ") ("@ + memory + "B)"@));
    lemma_label(label, answer + ") ("@ + memory + "B)"@);
    assert(line =~= (label + ": "@ + answer) + ") ("@ + memory + "B)"@);
    lemma_memory_figure(label + ": "@ + answer, memory);
}

/// An untimed line of the plain form is read as it was written.
///
/// Take a line `<label>: <answer> (<memory>B)` with neither `) (` nor
/// ` samples)`, whose label has no colon and whose memory figure has no
/// parenthesis. It is read with that label, no time, and the trimmed memory
/// figure.
pub proof fn lemma_untimed_form_is_read(label: Seq<char>, answer: Seq<char>, memory: Seq<char>)
    requires
        lacks(label, ':'),
        lacks(memory, '('),
        lacks(memory, ')'),
        !contains(label + ": "@ + answer + " ("@ + memory + "B)"@, ") ("@),
        !contains(label + ": "@ + answer + " ("@ + memory + "B)"@, " samples)"@),
    ensures
        measurement(label + ": "@ + answer + " ("@ + memory + "B)"@) == Ok::<
            MeasurementView,
            Rejection,
        >(
            MeasurementView {
                part_label: label,
                time_display: Seq::empty(),
                time: no_time(),
                memory_display: trim(memory + "B"@),
            },
        ),
{
    reveal_strlit(" (");
    reveal_strlit("(");
    reveal_strlit(" ");
    reveal_strlit("B)");
    let line = label + ": "@ + answer + " ("@ + memory + "B)"@;
    let tail = memory + "B)"@;
    let front = label + ": "@ + answer + " "@;
    assert(line =~= label + ": "@ + (answer + " ("@ + memory + "B)"@));
    lemma_label(label, answer + " ("@ + memory + "B)"@);
    assert(line =~= front + "("@ + tail);
    assert forall|j: int| front.len() < j <= front.len() + tail.len() implies line[j]
        != "("@[0] by {
        let i = j - front.len() - 1;
        assert(line[j] == tail[i]);
        if i < memory.len() {
            assert(tail[i] == memory[i]);
        } else {
            assert(tail[i] == "B)"@[i - memory.len()]);
        }
    }
    lemma_after_last_lacking(front, "("@, tail);
    lemma_memory_shown(memory);
}

/// A line without a memory figure is no measurement, whatever its timing.
pub proof fn lemma_no_memory_no_measurement(line: Seq<char>)
    requires
        heap_allocation(line) is None,
    ensures
        measurement(line) is Err,
        contains(line, ":"@) ==> measurement(line) == Err::<MeasurementView, Rejection>(
            Rejection::NoMemory,
        ),
{
}

/// Where the solution of a day lives.
#[must_use]
pub fn get_path_for_bin(day: Day) -> (r: String)
    ensures
        r@ == path_for_bin(day.value()),
{
    crate::template::readme_benchmarks::get_path_for_bin(day)
}

/// Reads the decimal number that stands in `s` before the first `postfix`
/// as so many units of `10^exponent` nanoseconds.
fn parse_number(s: &[char], postfix: &str, exponent: usize) -> (r: Option<Nanos>)
    ensures
        r.is_some() == number_before(s@, postfix@, exponent as nat).is_some(),
        r.is_some() ==> r.unwrap()@ == number_before(s@, postfix@, exponent as nat).unwrap(),
{
    let pat = to_chars(postfix);
    match parse_decimal(take_before_first(s, pat.as_slice())) {
        Some((digits, scale)) => {
            let num = shifted(digits.as_slice(), exponent);
            Some(Nanos::from_digits(num, scale))
        },
        None => None,
    }
}

/// Reads a duration token such as `74.13ms`.
pub fn parse_duration(token: &[char]) -> (r: Option<Nanos>)
    ensures
        r.is_some() == duration(token@).is_some(),
        r.is_some() ==> r.unwrap()@ == duration(token@).unwrap(),
{
    let ns = to_chars("ns");
    let us = to_chars("\u{b5}s");
    let ms = to_chars("ms");
    if holds(token, ns.as_slice()) {
        parse_number(token, "ns", 0)
    } else if holds(token, us.as_slice()) {
        parse_number(token, "\u{b5}s", 3)
    } else if holds(token, ms.as_slice()) {
        parse_number(token, "ms", 6)
    } else {
        parse_number(token, "s", 9)
    }
}

/// The duration token of a line.
fn timing_span(line: &[char]) -> (r: &[char])
    ensures
        r@ == timing_token(line@),
{
    let samples = to_chars(" samples)");
    let open = to_chars("(");
    let at = to_chars("@");
    let timed = take_before_first(line, samples.as_slice());
    let inner = take_after_last(timed, open.as_slice());
    trimmed(take_before_first(inner, at.as_slice()))
}

/// The memory figure of a line, if it has one.
fn heap_span(line: &[char]) -> (r: Option<&[char]>)
    ensures
        r.is_some() == heap_allocation(line@).is_some(),
        r.is_some() ==> r.unwrap()@ == heap_allocation(line@).unwrap(),
{
    let boundary = to_chars(") (");
    let open = to_chars("(");
    let close = to_chars(")");
    let byte = to_chars("B");
    let tail = if holds(line, boundary.as_slice()) {
        take_after_last(line, boundary.as_slice())
    } else if holds(line, open.as_slice()) {
        take_after_last(line, open.as_slice())
    } else {
        return None;
    };
    let figure = trimmed(take_before_first(tail, close.as_slice()));
    if holds(figure, byte.as_slice()) {
        Some(figure)
    } else {
        None
    }
}

/// Reads the timing of a line: the duration token as it stands, and the
/// time that it denotes.
pub fn parse_time(line: &str) -> (r: Option<(String, Nanos)>)
    ensures
        r.is_some() == timing(line@).is_some(),
        r.is_some() ==> (r.unwrap().0@, r.unwrap().1@) == timing(line@).unwrap(),
{
    let cs = to_chars(line);
    let token = timing_span(cs.as_slice());
    match parse_duration(token) {
        Some(nanos) => Some((to_text(token), nanos)),
        None => None,
    }
}

/// Reads the memory figure of a line.
pub fn parse_heap_allocation(line: &str) -> (r: Option<String>)
    ensures
        r.is_some() == heap_allocation(line@).is_some(),
        r.is_some() ==> r.unwrap()@ == heap_allocation(line@).unwrap(),
{
    let cs = to_chars(line);
    match heap_span(cs.as_slice()) {
        Some(figure) => Some(to_text(figure)),
        None => None,
    }
}

/// Reads one line of output.
pub fn parse_line(line: &str) -> (r: Result<Measurement, Rejection>)
    ensures
        match measurement(line@) {
            Ok(m) => r.is_ok() && r.unwrap()@ == m,
            Err(why) => r == Err::<Measurement, Rejection>(why),
        },
{
    let cs = to_chars(line);
    let colon = to_chars(":");
    let samples = to_chars(" samples)");
    if !holds(cs.as_slice(), colon.as_slice()) {
        return Err(Rejection::NoLabel);
    }
    let part_label = to_text(take_before_first(cs.as_slice(), colon.as_slice()));
    let memory_display = match heap_span(cs.as_slice()) {
        Some(figure) => to_text(figure),
        None => {
            return Err(Rejection::NoMemory);
        },
    };
    if !holds(cs.as_slice(), samples.as_slice()) {
        return Ok(
            Measurement {
                part_label,
                time_display: String::new(),
                time_nanos: Nanos::zero(),
                memory_display,
            },
        );
    }
    let token = timing_span(cs.as_slice());
    match parse_duration(token) {
        Some(time_nanos) => Ok(
            Measurement { part_label, time_display: to_text(token), time_nanos, memory_display },
        ),
        None => Err(Rejection::BadTiming),
    }
}

/// Takes one measurement into the benchmark of its day.
pub fn record_measurement(bench: &mut Benchmark, m: Measurement)
    ensures
        final(bench)@ == record(old(bench)@, m@),
{
    let label = to_chars(m.part_label.as_str());
    let one = to_chars("Part 1");
    let two = to_chars("Part 2");
    bench.total_nanos = bench.total_nanos.plus(&m.time_nanos);
    if holds(label.as_slice(), one.as_slice()) {
        bench.part_1 = Some((m.time_display, m.memory_display));
    } else if holds(label.as_slice(), two.as_slice()) {
        bench.part_2 = Some((m.time_display, m.memory_display));
    }
}

/// Gathers the output of one day into its benchmark: the columns of both
/// parts as the last measurement of each gave them, and the time of all
/// measurements together.
pub fn parse_exec_bench(output: &[String], day: Day) -> (r: Benchmark)
    ensures
        r@ == benchmark_of(output.deep_view(), day),
{
    let mut bench = Benchmark { day, part_1: None, part_2: None, total_nanos: Nanos::zero() };
    let ghost lines = output.deep_view();
    let mut i: usize = 0;
    assert(lines.take(0) =~= Seq::<Seq<char>>::empty());
    while i < output.len()
        invariant
            i <= output.len(),
            lines == output.deep_view(),
            bench@ == benchmark_of(lines.take(i as int), day),
        decreases output.len() - i,
    {
        proof {
            assert(lines.take(i + 1).drop_last() =~= lines.take(i as int));
            assert(lines.take(i + 1).last() == output[i as int]@);
        }
        match parse_line(output[i].as_str()) {
            Ok(m) => {
                record_measurement(&mut bench, m);
            },
            Err(_) => {},
        }
        i += 1;
    }
    assert(lines.take(output.len() as int) =~= lines);
    bench
}

/// The message for a line that was refused, if the refusal is one to
/// report.
pub fn diagnostic(line: &str, why: Rejection) -> (r: Option<String>)
    ensures
        r.is_some() == diagnostic_text(line@, why).is_some(),
        r.is_some() ==> r.unwrap()@ == diagnostic_text(line@, why).unwrap(),
{
    match why {
        Rejection::NoLabel => None,
        Rejection::NoMemory => {
            let mut message = "Could not parse heap allocation from line: ".to_owned();
            message.append(line);
            Some(message)
        },
        Rejection::BadTiming => {
            let mut message = "Could not parse timings from line: ".to_owned();
            message.append(line);
            Some(message)
        },
    }
}

/// The messages for the lines of `output` that were refused and are to be
/// reported, in the order of the lines.
pub fn diagnostics(output: &[String]) -> (r: Vec<String>)
    ensures
        r.deep_view() == diagnostics_of(output.deep_view()),
{
    let mut r: Vec<String> = Vec::new();
    let ghost lines = output.deep_view();
    let mut i: usize = 0;
    assert(lines.take(0) =~= Seq::<Seq<char>>::empty());
    assert(r.deep_view() =~= diagnostics_of(lines.take(0)));
    while i < output.len()
        invariant
            i <= output.len(),
            lines == output.deep_view(),
            r.deep_view() == diagnostics_of(lines.take(i as int)),
        decreases output.len() - i,
    {
        let ghost before = r.deep_view();
        proof {
            assert(lines.take(i + 1).drop_last() =~= lines.take(i as int));
            assert(lines.take(i + 1).last() == output[i as int]@);
        }
        let line = output[i].as_str();
        match parse_line(line) {
            Ok(_) => {},
            Err(why) => {
                match diagnostic(line, why) {
                    Some(message) => {
                        r.push(message);
                        assert(r.deep_view() =~= before.push(message@));
                    },
                    None => {},
                }
            },
        }
        i += 1;
    }
    assert(lines.take(output.len() as int) =~= lines);
    r
}

/// The arguments with which `cargo` runs the solution of a day.
pub fn cargo_args(day: Day, is_timed: bool, is_release: bool) -> (r: Vec<String>)
    ensures
        r.deep_view() == solution_args(day.value(), is_timed, is_release),
{
    let mut r: Vec<String> = Vec::new();
    r.push("run".to_owned());
    r.push("--quiet".to_owned());
    r.push("--bin".to_owned());
    r.push(day.to_string());
    if is_release {
        r.push("--release".to_owned());
    }
    if is_timed {
        r.push("--".to_owned());
        r.push("--time".to_owned());
    }
    assert(r.deep_view() =~= solution_args(day.value(), is_timed, is_release));
    r
}

/// What to do for a day: nothing where its solution does not exist yet,
/// else run `cargo` with the arguments given.
pub fn plan_run(scaffolded: bool, day: Day, is_timed: bool, is_release: bool) -> (r: Option<
    Vec<String>,
>)
    ensures
        r.is_some() == scaffolded,
        r.is_some() ==> r.unwrap().deep_view() == solution_args(day.value(), is_timed, is_release),
{
    if scaffolded {
        Some(cargo_args(day, is_timed, is_release))
    } else {
        None
    }
}

/// What to show before the solution of a day runs.
pub fn day_header(day: Day) -> (r: String)
    ensures
        r@ == day_header_text(day.value()),
{
    let mut r = String::new();
    if day.into_inner() > 1 {
        r.append("\n");
    }
    let d = day.to_string();
    r.append(ANSI_BOLD);
    r.append("Day ");
    r.append(d.as_str());
    r.append(ANSI_RESET);
    r.append("\n------");
    assert(r@ =~= day_header_text(day.value()));
    r
}

/// What to show at the end of a timed run.
pub fn total_line(total: &Nanos) -> (r: String)
    ensures
        r@ == total_line_text(total@),
{
    let mut r = "\n".to_owned();
    let shown = total.to_millis_string();
    r.append(ANSI_BOLD);
    r.append("Total:");
    r.append(ANSI_RESET);
    r.append(" ");
    r.append(ANSI_ITALIC);
    r.append(shown.as_str());
    r.append("ms");
    r.append(ANSI_RESET);
    r
}

/// Takes the output of a day into the results of the run. A day without
/// output is not solved yet and leaves no benchmark; any other day adds
/// its benchmark behind those of the days before.
pub fn record_output(benchmarks: &mut Vec<Benchmark>, output: &[String], day: Day) -> (solved: bool)
    ensures
        solved == (output@.len() > 0),
        !solved ==> final(benchmarks)@ == old(benchmarks)@,
        solved ==> final(benchmarks)@.len() == old(benchmarks)@.len() + 1,
        solved ==> final(benchmarks)@.drop_last() == old(benchmarks)@,
        solved ==> final(benchmarks)@.last()@ == benchmark_of(output.deep_view(), day),
{
    if output.len() == 0 {
        return false;
    }
    let bench = parse_exec_bench(output, day);
    benchmarks.push(bench);
    assert(benchmarks@.drop_last() =~= old(benchmarks)@);
    true
}

/// The time of a whole run: the totals of all its days together.
pub fn total_nanos(benchmarks: &[Benchmark]) -> (r: Nanos)
    ensures
        r@ == sum_of_totals(views(benchmarks@)),
{
    let mut total = Nanos::zero();
    let ghost all = views(benchmarks@);
    let mut i: usize = 0;
    assert(all.take(0) =~= Seq::<BenchmarkView>::empty());
    while i < benchmarks.len()
        invariant
            i <= benchmarks.len(),
            all == views(benchmarks@),
            total@ == sum_of_totals(all.take(i as int)),
        decreases benchmarks.len() - i,
    {
        proof {
            assert(all.take(i + 1).drop_last() =~= all.take(i as int));
            assert(all.take(i + 1).last() == benchmarks@[i as int]@);
        }
        total = total.plus(&benchmarks[i].total_nanos);
        i += 1;
    }
    assert(all.take(benchmarks.len() as int) =~= all);
    total
}

} // verus!
