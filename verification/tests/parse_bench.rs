use advent_of_code::day::Day;
use advent_of_code::nanos::Nanos;
use advent_of_code::template::commands::all::{
    cargo_args, day_header, diagnostic, diagnostics, get_path_for_bin, parse_duration,
    parse_exec_bench, parse_heap_allocation, parse_line, parse_time, plan_run, record_output,
    total_line, total_nanos, Rejection, NOT_SOLVED,
};
use advent_of_code::text::to_chars;

fn number(t: &Nanos) -> String {
    let digits: String = t.digits().iter().rev().map(|d| (b'0' + d) as char).collect();
    let shown = digits.trim_start_matches('0');
    if shown.is_empty() { "0".to_string() } else { shown.to_string() }
}

fn exact(t: &Nanos) -> (String, usize) {
    (number(t), t.scale())
}

fn nanos_of(t: &Nanos) -> f64 {
    number(t).parse::<f64>().unwrap() / 10f64.powi(t.scale() as i32)
}

fn picos(t: &Nanos) -> u128 {
    let n = number(t).parse::<u128>().unwrap();
    if t.scale() <= 3 {
        n * 10u128.pow(3 - t.scale() as u32)
    } else {
        let finer = 10u128.pow(t.scale() as u32 - 3);
        assert_eq!(n % finer, 0);
        n / finer
    }
}

fn approx(a: f64, b: f64) -> bool {
    (a - b).abs() < 1.0e-6
}

fn day_one() -> Day {
    Day::new(1).unwrap()
}

#[test]
fn test_well_formed() {
    let res = parse_exec_bench(
        &[
            "Part 1: 0 (74.13ns @ 100000 samples) (10KB)".into(),
            "Part 2: 10 (74.13ms @ 99999 samples) (10KB)".into(),
            "".into(),
        ],
        day_one(),
    );
    assert!(approx(nanos_of(&res.total_nanos), 74130074.13_f64));
    assert_eq!(res.part_1.unwrap(), ("74.13ns".into(), "10KB".into()));
    assert_eq!(res.part_2.unwrap(), ("74.13ms".into(), "10KB".into()));
}

#[test]
fn test_patterns_in_input() {
    let res = parse_exec_bench(
        &[
            "Part 1: @ @ @ ( ) ms (2s @ 5 samples) (10B)".into(),
            "Part 2: 10s (100ms @ 1 samples) (10B)".into(),
            "".into(),
        ],
        day_one(),
    );
    assert!(approx(nanos_of(&res.total_nanos), 2100000000_f64));
    assert_eq!(res.part_1.unwrap(), ("2s".into(), "10B".into()));
    assert_eq!(res.part_2.unwrap(), ("100ms".into(), "10B".into()));
}

#[test]
fn test_missing_parts() {
    let res = parse_exec_bench(
        &[
            "Part 1: ✖        ".into(),
            "Part 2: ✖        ".into(),
            "".into(),
        ],
        day_one(),
    );
    assert!(approx(nanos_of(&res.total_nanos), 0_f64));
    assert_eq!(res.part_1.is_none(), true);
    assert_eq!(res.part_2.is_none(), true);
}

#[test]
fn well_formed_total_is_exact() {
    let res = parse_exec_bench(
        &[
            "Part 1: 0 (74.13ns @ 100000 samples) (10KB)".into(),
            "Part 2: 10 (74.13ms @ 99999 samples) (10KB)".into(),
        ],
        day_one(),
    );
    assert_eq!(picos(&res.total_nanos), 74_130_074_130);
    assert_eq!(res.day, day_one());
}

#[test]
fn line_with_timing_gives_every_field() {
    let m = parse_line("Part 1: 42 (74.13ms @ 100 samples) (10KB)").unwrap();
    assert_eq!(m.part_label, "Part 1");
    assert_eq!(m.time_display, "74.13ms");
    assert_eq!(picos(&m.time_nanos), 74_130_000_000);
    assert_eq!(m.memory_display, "10KB");
}

#[test]
fn line_without_samples_has_no_time() {
    let m = parse_line("Part 1: 42 (5ms) (10KB)").unwrap();
    assert_eq!(m.part_label, "Part 1");
    assert_eq!(m.time_display, "");
    assert_eq!(m.time_nanos, Nanos::zero());
    assert_eq!(m.memory_display, "10KB");
}

#[test]
fn untimed_line_of_the_plain_form_has_its_memory() {
    let m = parse_line("Part 1: 42 (10KB)").unwrap();
    assert_eq!(m.part_label, "Part 1");
    assert_eq!(m.time_display, "");
    assert_eq!(m.time_nanos, Nanos::zero());
    assert_eq!(m.memory_display, "10KB");
    assert_eq!(parse_heap_allocation("Part 1: 42 (10KB)").unwrap(), "10KB");
    assert_eq!(parse_heap_allocation("Part 2: (a) b ( 3.5 MB )").unwrap(), "3.5 MB");
    assert_eq!(parse_heap_allocation("Part 2: 7 (3.5MB").unwrap(), "3.5MB");
    assert!(parse_heap_allocation("Part 2: 7 3.5MB").is_none());
    assert!(parse_heap_allocation("Part 2: 7) 3.5MB").is_none());
    assert!(parse_heap_allocation("Part 2: 7 (3.5M)").is_none());
}

#[test]
fn line_without_colon_is_no_measurement() {
    assert_eq!(parse_line("").unwrap_err(), Rejection::NoLabel);
    assert_eq!(parse_line("Part 1 (5ms @ 1 samples) (10KB)").unwrap_err(), Rejection::NoLabel);
}

#[test]
fn line_without_byte_figure_is_rejected_whatever_its_timing() {
    assert_eq!(
        parse_line("Part 1: 0 (74.13ns @ 100000 samples) (10K)").unwrap_err(),
        Rejection::NoMemory
    );
    assert_eq!(parse_line("Part 1: 0 (74.13ns @ 100000 samples)").unwrap_err(), Rejection::NoMemory);
    assert_eq!(parse_line("Part 1: ✖        ").unwrap_err(), Rejection::NoMemory);
    assert!(parse_heap_allocation("Part 1: 0 (1s @ 1 samples) (10 kb)").is_none());
}

#[test]
fn line_with_unreadable_time_is_rejected() {
    assert_eq!(
        parse_line("Part 1: 0 (fast @ 3 samples) (10KB)").unwrap_err(),
        Rejection::BadTiming
    );
    assert_eq!(
        parse_line("Part 1: 0 (ms @ 3 samples) (10KB)").unwrap_err(),
        Rejection::BadTiming
    );
    assert_eq!(
        parse_line("Part 1: 0 (-5ms @ 3 samples) (10KB)").unwrap_err(),
        Rejection::BadTiming
    );
}

#[test]
fn memory_is_anchored_on_the_last_boundary() {
    assert_eq!(parse_heap_allocation("a) (1B) (2KB) tail").unwrap(), "2KB");
    assert_eq!(parse_heap_allocation("x: y (1s @ 2 samples) (  12.5 MB  )").unwrap(), "12.5 MB");
    assert_eq!(parse_heap_allocation("x) (B").unwrap(), "B");
}

#[test]
fn time_is_anchored_on_the_last_parenthesis_and_first_at() {
    let (shown, time) = parse_time("Part 1: (1s @ ( 3ms @ 4 @ 5 samples) (1B)").unwrap();
    assert_eq!(shown, "3ms");
    assert_eq!(picos(&time), 3_000_000_000);
    let (shown, time) = parse_time("7s").unwrap();
    assert_eq!(shown, "7s");
    assert_eq!(picos(&time), 7_000_000_000_000);
}

#[test]
fn each_unit_has_its_factor() {
    let ps = |s: &str| parse_duration(&to_chars(s)).map(|t| picos(&t));
    assert_eq!(ps("1ns"), Some(1_000));
    assert_eq!(ps("1µs"), Some(1_000_000));
    assert_eq!(ps("1ms"), Some(1_000_000_000));
    assert_eq!(ps("1s"), Some(1_000_000_000_000));
    assert_eq!(ps("1"), Some(1_000_000_000_000));
    assert_eq!(ps("1.5µs"), Some(1_500_000));
    assert_eq!(ps("0.25ns"), Some(250));
    assert_eq!(ps(".5ms"), Some(500_000_000));
    assert_eq!(ps("5.ms"), Some(5_000_000_000));
    assert_eq!(ps("12.345678ms"), Some(12_345_678_000));
}

#[test]
fn unit_is_chosen_in_order_of_priority() {
    let ps = |s: &str| parse_duration(&to_chars(s)).map(|t| picos(&t));
    assert_eq!(ps("3ms ns"), None);
    assert_eq!(ps("3nsms"), Some(3_000));
    assert_eq!(ps("3µsms"), Some(3_000_000));
    assert_eq!(ps("3msµs"), None);
    assert_eq!(ps("3smile"), Some(3_000_000_000_000));
}

#[test]
fn every_digit_of_a_duration_is_kept() {
    let read = |s: &str| parse_duration(&to_chars(s)).map(|t| exact(&t));
    assert_eq!(read("0.0004ns"), Some(("4".to_string(), 4)));
    assert_eq!(read("1.23456ns"), Some(("123456".to_string(), 5)));
    assert_eq!(read("74.13ms"), Some(("7413000000".to_string(), 2)));
    assert_eq!(read("0.0009µs"), Some(("9000".to_string(), 4)));
    assert_eq!(read("2s"), Some(("2000000000".to_string(), 0)));
    assert_eq!(read("000.500s"), Some(("500000000000".to_string(), 3)));
    assert_eq!(
        read("2.0000000000000000000000000000000000000000001s"),
        Some(("20000000000000000000000000000000000000000001000000000".to_string(), 43))
    );
    let m = parse_line("Part 1: 0 (0.0004ns @ 1 samples) (1B)").unwrap();
    assert_eq!(m.time_display, "0.0004ns");
    assert_eq!(exact(&m.time_nanos), ("4".to_string(), 4));
    let t = nanos_of(&m.time_nanos);
    assert!((t - 0.0004).abs() <= 1.0e-6 * 0.0004);
}

#[test]
fn numbers_that_are_no_plain_decimals_are_refused() {
    let ps = |s: &str| parse_duration(&to_chars(s)).map(|t| picos(&t));
    assert_eq!(ps(""), None);
    assert_eq!(ps("s"), None);
    assert_eq!(ps(".s"), None);
    assert_eq!(ps("1e3ms"), None);
    assert_eq!(ps("+1ms"), None);
    assert_eq!(ps("1.2.3ms"), None);
    assert_eq!(ps("1 ms"), None);
    assert_eq!(ps("infs"), None);
}

#[test]
fn no_duration_is_too_long_or_too_fine() {
    let read = |s: &str| parse_duration(&to_chars(s)).map(|t| exact(&t));
    assert_eq!(
        read("340282366920938463463374607431768211.456ns"),
        Some(("340282366920938463463374607431768211456".to_string(), 3))
    );
    assert_eq!(
        read("99999999999999999999999999999999999999999999s"),
        Some(("99999999999999999999999999999999999999999999000000000".to_string(), 0))
    );
}

#[test]
fn last_measurement_of_a_part_wins() {
    let res = parse_exec_bench(
        &[
            "Part 1: a (1ms @ 1 samples) (1B)".into(),
            "Part 1: b (2ms @ 1 samples) (2B)".into(),
            "Part 2: c (d) (1B)".into(),
        ],
        day_one(),
    );
    assert_eq!(res.part_1.unwrap(), ("2ms".into(), "2B".into()));
    assert_eq!(res.part_2.unwrap(), ("".into(), "1B".into()));
    assert_eq!(picos(&res.total_nanos), 3_000_000_000);
}

#[test]
fn unlabelled_measurement_counts_towards_the_total_only() {
    let res = parse_exec_bench(
        &[
            "Setup: x (4ms @ 1 samples) (1B)".into(),
            "Part 2 and Part 1: y (1ms @ 1 samples) (3B)".into(),
        ],
        day_one(),
    );
    assert_eq!(res.part_1.unwrap(), ("1ms".into(), "3B".into()));
    assert!(res.part_2.is_none());
    assert_eq!(picos(&res.total_nanos), 5_000_000_000);
}

#[test]
fn total_is_exact_whatever_the_sizes() {
    let res = parse_exec_bench(
        &[
            "Part 1: x (340282366920938463463374607431768211.455ns @ 1 samples) (1B)".into(),
            "Part 2: y (0.00000000000000000001ns @ 1 samples) (1B)".into(),
            "Part 2: y (1s @ 1 samples) (1B)".into(),
        ],
        day_one(),
    );
    assert_eq!(
        exact(&res.total_nanos),
        ("34028236692093846346337460843176821145500000000000000001".to_string(), 20)
    );
}

#[test]
fn refused_lines_are_reported_with_their_text() {
    let output: Vec<String> = vec![
        "Part 1: 1 (1ms @ 1 samples) (1B)".into(),
        "no label here".into(),
        "Part 1: ✖".into(),
        "".into(),
        "Part 2: 1 (soon @ 1 samples) (1B)".into(),
    ];
    assert_eq!(
        diagnostics(&output),
        vec![
            "Could not parse heap allocation from line: Part 1: ✖".to_string(),
            "Could not parse timings from line: Part 2: 1 (soon @ 1 samples) (1B)".to_string(),
        ]
    );
    assert_eq!(diagnostic("x", Rejection::NoLabel), None);
    assert_eq!(
        diagnostic("x", Rejection::NoMemory).unwrap(),
        "Could not parse heap allocation from line: x"
    );
    assert_eq!(diagnostic("x", Rejection::BadTiming).unwrap(), "Could not parse timings from line: x");
    assert!(diagnostics(&[]).is_empty());
}

#[test]
fn solution_is_run_with_the_flags_asked_for() {
    let day = Day::new(7).unwrap();
    assert_eq!(cargo_args(day, false, false), vec!["run", "--quiet", "--bin", "07"]);
    assert_eq!(cargo_args(day, false, true), vec!["run", "--quiet", "--bin", "07", "--release"]);
    assert_eq!(cargo_args(day, true, false), vec!["run", "--quiet", "--bin", "07", "--", "--time"]);
    assert_eq!(
        cargo_args(Day::new(25).unwrap(), true, true),
        vec!["run", "--quiet", "--bin", "25", "--release", "--", "--time"]
    );
    assert_eq!(plan_run(false, day, true, true), None);
    assert_eq!(plan_run(true, day, true, false), Some(cargo_args(day, true, false)));
    assert_eq!(get_path_for_bin(day), "./src/bin/07.rs");
}

#[test]
fn unsolved_day_leaves_no_benchmark() {
    let mut benchmarks = Vec::new();
    assert!(!record_output(&mut benchmarks, &[], day_one()));
    assert!(benchmarks.is_empty());
    assert_eq!(total_nanos(&benchmarks), Nanos::zero());
    let first: Vec<String> = vec!["Part 1: 1 (10ms @ 1 samples) (1B)".into(), "Part 2: 2 (20ms @ 1 samples) (2B)".into()];
    let second: Vec<String> = vec!["nothing to read".into()];
    let third: Vec<String> = vec!["Part 1: 1 (30µs @ 1 samples) (1B)".into()];
    assert!(record_output(&mut benchmarks, &first, Day::new(1).unwrap()));
    assert!(record_output(&mut benchmarks, &second, Day::new(2).unwrap()));
    assert!(record_output(&mut benchmarks, &third, Day::new(4).unwrap()));
    assert_eq!(benchmarks.len(), 3);
    assert_eq!(benchmarks[0].day.into_inner(), 1);
    assert_eq!(benchmarks[1].day.into_inner(), 2);
    assert_eq!(benchmarks[2].day.into_inner(), 4);
    assert!(benchmarks[1].part_1.is_none() && benchmarks[1].part_2.is_none());
    assert_eq!(benchmarks[1].total_nanos, Nanos::zero());
    assert_eq!(picos(&total_nanos(&benchmarks)), 30_030_000_000);
    assert_eq!(total_nanos(&benchmarks).to_millis_string(), "30.03");
    benchmarks[1].total_nanos = Nanos::from_picos(u128::MAX);
    assert_eq!(
        exact(&total_nanos(&benchmarks)),
        ("340282366920938463463374607461798211455".to_string(), 3)
    );
}

#[test]
fn operator_sees_headers_and_the_total() {
    assert_eq!(day_header(Day::new(1).unwrap()), "\x1b[1mDay 01\x1b[0m\n------");
    assert_eq!(day_header(Day::new(2).unwrap()), "\n\x1b[1mDay 02\x1b[0m\n------");
    assert_eq!(day_header(Day::new(25).unwrap()), "\n\x1b[1mDay 25\x1b[0m\n------");
    assert_eq!(
        total_line(&Nanos::from_nanos(74_130_074)),
        "\n\x1b[1mTotal:\x1b[0m \x1b[3m74.13ms\x1b[0m"
    );
    assert_eq!(NOT_SOLVED, "Not solved.");
}

#[test]
fn durations_agree_with_floating_point() {
    let units = [("ns", 1.0_f64), ("µs", 1.0e3), ("ms", 1.0e6), ("s", 1.0e9)];
    let numbers = [
        "0", "1", "74.13", "2", "100", "0.5", "12.345", "999.999", "1.000000", "86400", "0.0004",
        "0.000000000123", "123456789.000000001",
    ];
    for (unit, factor) in units {
        for number in numbers {
            let token = format!("{number}{unit}");
            let expected = number.parse::<f64>().unwrap() * factor;
            let read = nanos_of(&parse_duration(&to_chars(&token)).unwrap());
            assert!((read - expected).abs() <= 1.0e-6 * expected.abs(), "{token}");
            let line = format!("Part 1: 0 ({token} @ 7 samples) (1KB)");
            let m = parse_line(&line).unwrap();
            assert_eq!(m.time_display, token);
            assert_eq!(nanos_of(&m.time_nanos), read);
        }
    }
}
