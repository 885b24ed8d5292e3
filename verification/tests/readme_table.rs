use advent_of_code::day::Day;
use advent_of_code::nanos::Nanos;
use advent_of_code::template::readme_benchmarks::{
    construct_table, get_path_for_bin, locate_table, update_content, Benchmark, Error, MARKER,
};

fn day(n: u8) -> Day {
    Day::new(n).unwrap()
}

fn get_mock_timings() -> Vec<Benchmark> {
    vec![
        Benchmark {
            day: day(1),
            part_1: Some(("10ms".into(), "10B".into())),
            part_2: Some(("20ms".into(), "20B".into())),
            total_nanos: Nanos::from_nanos(30_000_000_000),
        },
        Benchmark {
            day: day(2),
            part_1: Some(("30ms".into(), "30B".into())),
            part_2: Some(("40ms".into(), "40B".into())),
            total_nanos: Nanos::from_nanos(70_000_000_000),
        },
        Benchmark {
            day: day(4),
            part_1: Some(("40ms".into(), "40B".into())),
            part_2: Some(("50ms".into(), "50B".into())),
            total_nanos: Nanos::from_nanos(90_000_000_000),
        },
    ]
}

fn total() -> Nanos {
    Nanos::from_nanos(190_000_000)
}

fn message(r: Result<(), Error>) -> String {
    match r {
        Err(Error::Parser(m)) => m,
        _ => panic!("expected a marker error"),
    }
}

#[test]
#[should_panic]
fn errors_if_marker_not_present() {
    let mut s = "# readme".to_string();
    update_content(&mut s, get_mock_timings(), total()).unwrap();
}

#[test]
#[should_panic]
fn errors_if_too_many_markers_present() {
    let mut s = format!("{} {} {}", MARKER, MARKER, MARKER);
    update_content(&mut s, get_mock_timings(), total()).unwrap();
}

#[test]
fn updates_empty_benchmarks() {
    let mut s = format!("foo\nbar\n{}{}\nbaz", MARKER, MARKER);
    update_content(&mut s, get_mock_timings(), total()).unwrap();
    assert_eq!(s.contains("## Benchmarks"), true);
}

#[test]
fn updates_existing_benchmarks() {
    let mut s = format!("foo\nbar\n{}{}\nbaz", MARKER, MARKER);
    update_content(&mut s, get_mock_timings(), total()).unwrap();
    update_content(&mut s, get_mock_timings(), total()).unwrap();
    assert_eq!(s.matches(MARKER).collect::<Vec<&str>>().len(), 2);
    assert_eq!(s.matches("## Benchmarks").collect::<Vec<&str>>().len(), 1);
}

#[test]
fn format_benchmarks() {
    let mut s = format!("foo\nbar\n{}\n{}\nbaz", MARKER, MARKER);
    update_content(&mut s, get_mock_timings(), total()).unwrap();
    let expected = [
        "foo",
        "bar",
        "<!--- benchmarking table --->",
        "## Benchmarks",
        "",
        "| Day | Part 1 | Part 2 |",
        "| :---: | :---: | :---:  |",
        "| [Day 1](./src/bin/01.rs) | `10ms` `10B` | `20ms` `20B` |",
        "| [Day 2](./src/bin/02.rs) | `30ms` `30B` | `40ms` `40B` |",
        "| [Day 4](./src/bin/04.rs) | `40ms` `40B` | `50ms` `50B` |",
        "",
        "**Total time: 190.00ms**",
        "",
        "<!--- benchmarking table --->",
        "baz",
    ]
    .join("\n");
    assert_eq!(s, expected);
}

#[test]
fn second_update_changes_nothing() {
    let mut s = format!("intro {}old table{} outro", MARKER, MARKER);
    update_content(&mut s, get_mock_timings(), total()).unwrap();
    let once = s.clone();
    update_content(&mut s, get_mock_timings(), total()).unwrap();
    assert_eq!(s, once);
}

#[test]
fn each_marker_count_has_its_own_error() {
    let mut none = "# readme".to_string();
    let mut one = format!("a {} b", MARKER);
    let mut three = format!("{} {} {}", MARKER, MARKER, MARKER);
    let m0 = message(update_content(&mut none, get_mock_timings(), total()));
    let m1 = message(update_content(&mut one, get_mock_timings(), total()));
    let m3 = message(update_content(&mut three, get_mock_timings(), total()));
    assert_eq!(m0, "Could not find table start position.");
    assert_eq!(m1, "Could not find table end position.");
    assert_eq!(m3, "Too many occurrences of marker in document.");
    assert_ne!(m0, m1);
    assert_ne!(m1, m3);
    assert_ne!(m0, m3);
}

#[test]
fn rejected_document_is_left_as_it_was() {
    let mut one = format!("a {} b", MARKER);
    let before = one.clone();
    assert!(update_content(&mut one, get_mock_timings(), total()).is_err());
    assert_eq!(one, before);
    let mut four = format!("{0}{0}{0}{0}", MARKER);
    let before = four.clone();
    assert!(update_content(&mut four, get_mock_timings(), total()).is_err());
    assert_eq!(four, before);
}

#[test]
fn table_is_located_by_characters() {
    let doc = format!("µ✖ {} x {} y", MARKER, MARKER);
    assert_eq!(locate_table(&doc).unwrap().bounds(), (3, 3 + 29 + 3 + 29));
    assert_eq!(locate_table(&format!("{}{}", MARKER, MARKER)).unwrap().bounds(), (0, 58));
    assert!(locate_table("").is_err());
    assert!(locate_table(MARKER).is_err());
    let mut s = doc.clone();
    update_content(&mut s, Vec::new(), Nanos::zero()).unwrap();
    assert!(s.starts_with("µ✖ <!--- benchmarking table --->\n## Benchmarks\n"));
    assert!(s.ends_with("**Total time: 0.00ms**\n\n<!--- benchmarking table ---> y"));
}

#[test]
fn missing_parts_show_dashes() {
    let table = construct_table(
        "###",
        vec![Benchmark { day: day(25), part_1: None, part_2: Some(("1s".into(), "2B".into())), total_nanos: Nanos::zero() }],
        Nanos::from_decimal(1_234_567_890_123, 3),
    );
    let expected = [
        "<!--- benchmarking table --->",
        "### Benchmarks",
        "",
        "| Day | Part 1 | Part 2 |",
        "| :---: | :---: | :---:  |",
        "| [Day 25](./src/bin/25.rs) | `-` `-` | `1s` `2B` |",
        "",
        "**Total time: 1234.57ms**",
        "",
        "<!--- benchmarking table --->",
    ]
    .join("\n");
    assert_eq!(table, expected);
}

#[test]
fn empty_table_has_no_rows() {
    let table = construct_table("##", Vec::new(), Nanos::zero());
    assert_eq!(
        table,
        "<!--- benchmarking table --->\n## Benchmarks\n\n| Day | Part 1 | Part 2 |\n| :---: | :---: | :---:  |\n\n**Total time: 0.00ms**\n\n<!--- benchmarking table --->"
    );
}

#[test]
fn path_has_the_padded_day() {
    assert_eq!(get_path_for_bin(day(1)), "./src/bin/01.rs");
    assert_eq!(get_path_for_bin(day(9)), "./src/bin/09.rs");
    assert_eq!(get_path_for_bin(day(10)), "./src/bin/10.rs");
    assert_eq!(get_path_for_bin(day(25)), "./src/bin/25.rs");
}

#[test]
fn cells_with_angle_brackets_do_not_break_a_second_update() {
    let timings = || {
        vec![Benchmark {
            day: day(3),
            part_1: Some(("<1ms".into(), "<!--- benchmarking table ---".into())),
            part_2: Some(("<!".into(), "> 2KB <".into())),
            total_nanos: Nanos::zero(),
        }]
    };
    let mut s = format!("a{}b{}c", MARKER, MARKER);
    update_content(&mut s, timings(), total()).unwrap();
    let once = s.clone();
    assert_eq!(s.matches(MARKER).count(), 2);
    update_content(&mut s, timings(), total()).unwrap();
    assert_eq!(s, once);
}
