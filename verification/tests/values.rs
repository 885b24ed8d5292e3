use advent_of_code::day::{all_days, Day};
use advent_of_code::decimal::{digit_of, parse_decimal, parse_digits, push_decimal, read_digits};
use advent_of_code::digits::{from_u128, push_number, shifted, sum_digits};
use advent_of_code::nanos::Nanos;
use advent_of_code::part::Part;
use advent_of_code::template::commands::scaffold::{
    bin_path, example_path, input_path, module_source,
};
use advent_of_code::text::{
    char_is_whitespace, find, find_all, holds, matches_at, replace_all, rfind, take_after_last,
    take_before_first, to_chars, to_text, trimmed,
};

fn cs(s: &str) -> Vec<char> {
    to_chars(s)
}

#[test]
fn part_is_one_or_two() {
    assert_eq!(Part::new(1).unwrap().into_inner(), 1);
    assert_eq!(Part::new(2).unwrap().into_inner(), 2);
    assert!(Part::new(0).is_none());
    assert!(Part::new(3).is_none());
    assert!(Part::new(255).is_none());
}

#[test]
fn part_displays_as_one_digit() {
    assert_eq!(Part::new(1).unwrap().to_string(), "1");
    assert_eq!(Part::new(2).unwrap().to_string(), "2");
}

#[test]
fn part_reads_from_text() {
    assert_eq!(Part::from_str("1").unwrap(), Part::new(1).unwrap());
    assert_eq!(Part::from_str("2").unwrap(), Part::new(2).unwrap());
    assert_eq!(Part::from_str("+2").unwrap(), Part::new(2).unwrap());
    assert_eq!(Part::from_str("002").unwrap(), Part::new(2).unwrap());
    assert!(Part::from_str("").is_err());
    assert!(Part::from_str("+").is_err());
    assert!(Part::from_str("0").is_err());
    assert!(Part::from_str("3").is_err());
    assert!(Part::from_str(" 1").is_err());
    assert!(Part::from_str("-1").is_err());
    assert!(Part::from_str("1.0").is_err());
    assert!(Part::from_str("258").is_err());
    assert_eq!(
        Part::from_str("x").unwrap_err().to_string(),
        "expecting a part, either 1 or 2"
    );
}

#[test]
fn part_compares_with_numbers() {
    assert!(Part::new(1).unwrap() == 1);
    assert!(Part::new(1).unwrap() != 2);
    assert!(Part::new(1).unwrap() < 2);
    assert!(Part::new(2).unwrap() > 1);
    assert!(Part::new(2).unwrap() <= 2);
    assert!(Part::new(1).unwrap() < Part::new(2).unwrap());
    assert_eq!("2".parse::<Part>().unwrap(), Part::new(2).unwrap());
    assert!("3".parse::<Part>().is_err());
}

#[test]
fn day_is_in_the_calendar() {
    assert!(Day::new(0).is_none());
    assert_eq!(Day::new(1).unwrap().into_inner(), 1);
    assert_eq!(Day::new(25).unwrap().into_inner(), 25);
    assert!(Day::new(26).is_none());
}

#[test]
fn day_displays_as_two_digits() {
    assert_eq!(Day::new(1).unwrap().to_string(), "01");
    assert_eq!(Day::new(9).unwrap().to_string(), "09");
    assert_eq!(Day::new(10).unwrap().to_string(), "10");
    assert_eq!(Day::new(25).unwrap().to_string(), "25");
}

#[test]
fn all_days_are_in_order() {
    let days = all_days();
    assert_eq!(days.len(), 25);
    for (i, d) in days.iter().enumerate() {
        assert_eq!(d.into_inner() as usize, i + 1);
    }
}

fn number(digits: &[u8]) -> String {
    let mut s = String::new();
    push_number(&mut s, digits);
    s
}

fn exact(t: &Nanos) -> (String, usize) {
    (number(t.digits()), t.scale())
}

#[test]
fn nanos_add_at_the_finer_scale() {
    let a = Nanos::from_nanos(2);
    let b = Nanos::from_picos(5);
    assert_eq!(exact(&a.plus(&b)), ("2005".to_string(), 3));
    assert_eq!(exact(&b.plus(&a)), ("2005".to_string(), 3));
    assert_eq!(
        exact(&Nanos::from_picos(u128::MAX).plus(&b)),
        ("340282366920938463463374607431768211460".to_string(), 3)
    );
    assert_eq!(exact(&Nanos::zero()), ("0".to_string(), 0));
    assert_eq!(exact(&Nanos::zero().plus(&Nanos::zero())), ("0".to_string(), 0));
    assert_eq!(exact(&Nanos::from_nanos(u64::MAX)), ("18446744073709551615".to_string(), 0));
    assert_eq!(exact(&Nanos::from_decimal(7413, 2)), ("7413".to_string(), 2));
    assert_eq!(
        exact(&Nanos::from_decimal(7413, 2).plus(&Nanos::from_decimal(1, 5))),
        ("7413001".to_string(), 5)
    );
    assert_eq!(exact(&Nanos::from_digits(vec![3, 1, 4, 7], 2)), ("7413".to_string(), 2));
    assert_eq!(Nanos::from_decimal(9, 1).clone(), Nanos::from_decimal(9, 1));
}

#[test]
fn digits_add_with_carry() {
    assert_eq!(sum_digits(&[9, 9], &[1]), vec![0, 0, 1]);
    assert_eq!(sum_digits(&[], &[]), Vec::<u8>::new());
    assert_eq!(sum_digits(&[5], &[]), vec![5]);
    assert_eq!(sum_digits(&[5, 0, 0], &[5, 9]), vec![0, 0, 1]);
    assert_eq!(number(&sum_digits(&from_u128(u128::MAX), &from_u128(u128::MAX))),
        "680564733841876926926749214863536422910");
    assert_eq!(from_u128(0), Vec::<u8>::new());
    assert_eq!(from_u128(1203), vec![3, 0, 2, 1]);
    assert_eq!(shifted(&[3, 1], 2), vec![0, 0, 3, 1]);
    assert_eq!(shifted(&[3, 1], 0), vec![3, 1]);
    assert_eq!(number(&[]), "0");
    assert_eq!(number(&[0, 0, 0]), "0");
    assert_eq!(number(&[0, 1, 0]), "10");
    assert_eq!(number(&[7]), "7");
}

#[test]
fn nanos_shows_milliseconds_with_two_decimals() {
    assert_eq!(Nanos::zero().to_millis_string(), "0.00");
    assert_eq!(Nanos::from_nanos(190_000_000).to_millis_string(), "190.00");
    assert_eq!(Nanos::from_nanos(1_234_567).to_millis_string(), "1.23");
    assert_eq!(Nanos::from_nanos(1_235_000).to_millis_string(), "1.24");
    assert_eq!(Nanos::from_nanos(1_234_999).to_millis_string(), "1.23");
    assert_eq!(Nanos::from_picos(4_999_999).to_millis_string(), "0.00");
    assert_eq!(Nanos::from_picos(5_000_000).to_millis_string(), "0.01");
    assert_eq!(Nanos::from_nanos(999_995_000).to_millis_string(), "1000.00");
    assert_eq!(Nanos::from_nanos(74_130_074).to_millis_string(), "74.13");
    assert_eq!(
        Nanos::from_picos(u128::MAX).to_millis_string(),
        "340282366920938463463374607431.77"
    );
    assert_eq!(Nanos::from_decimal(4, 4).to_millis_string(), "0.00");
    assert_eq!(Nanos::from_decimal(49_999_999, 4).to_millis_string(), "0.00");
    assert_eq!(Nanos::from_decimal(50_000_000, 4).to_millis_string(), "0.01");
    assert_eq!(Nanos::from_decimal(5, 0).to_millis_string(), "0.00");
    assert_eq!(Nanos::from_decimal(5_000, 0).to_millis_string(), "0.01");
    assert_eq!(Nanos::from_decimal(9_995_000, 0).to_millis_string(), "10.00");
    assert_eq!(Nanos::from_decimal(1, usize::MAX).to_millis_string(), "0.00");
    assert_eq!(
        Nanos::from_picos(u128::MAX).plus(&Nanos::from_picos(u128::MAX)).to_millis_string(),
        "680564733841876926926749214863.54"
    );
}

#[test]
fn text_round_trips_through_characters() {
    let s = "Part 1: ✖ µs\t";
    assert_eq!(to_text(&cs(s)), s);
    assert_eq!(cs("µs"), vec!['µ', 's']);
    assert_eq!(to_text(&[]), "");
}

#[test]
fn find_gives_the_leftmost_and_rfind_the_rightmost() {
    let s = cs("abcabcab");
    assert_eq!(find(&s, &cs("bc")), Some(1));
    assert_eq!(rfind(&s, &cs("bc")), Some(4));
    assert_eq!(find(&s, &cs("ab")), Some(0));
    assert_eq!(rfind(&s, &cs("ab")), Some(6));
    assert_eq!(find(&s, &cs("ca")), Some(2));
    assert_eq!(find(&s, &cs("x")), None);
    assert_eq!(rfind(&s, &cs("abcabcabc")), None);
    assert_eq!(find(&s, &cs("")), Some(0));
    assert_eq!(rfind(&s, &cs("")), Some(8));
    assert_eq!(find(&cs(""), &cs("")), Some(0));
    assert!(holds(&s, &cs("cab")));
    assert!(!holds(&s, &cs("cc")));
}

#[test]
fn find_all_lists_every_position() {
    assert_eq!(find_all(&cs("abcabcab"), &cs("ab")), vec![0, 3, 6]);
    assert_eq!(find_all(&cs("aaaa"), &cs("aa")), vec![0, 1, 2]);
    assert_eq!(find_all(&cs("abc"), &cs("x")), Vec::<usize>::new());
    assert_eq!(find_all(&cs("ab"), &cs("abc")), Vec::<usize>::new());
    assert_eq!(find_all(&cs("ab"), &cs("")), vec![0, 1, 2]);
}

#[test]
fn splitting_keeps_the_whole_text_where_the_pattern_is_absent() {
    let s = cs("a) (b) (c");
    assert_eq!(to_text(take_before_first(&s, &cs(") ("))), "a");
    assert_eq!(to_text(take_after_last(&s, &cs(") ("))), "c");
    assert_eq!(to_text(take_before_first(&s, &cs("#"))), "a) (b) (c");
    assert_eq!(to_text(take_after_last(&s, &cs("#"))), "a) (b) (c");
    assert_eq!(to_text(take_after_last(&cs("x) ("), &cs(") ("))), "");
    assert_eq!(to_text(take_before_first(&cs(") (x"), &cs(") ("))), "");
}

#[test]
fn trimming_strips_unicode_whitespace() {
    assert_eq!(to_text(trimmed(&cs("  a b \t\n"))), "a b");
    assert_eq!(to_text(trimmed(&cs("\u{a0}\u{2003}x\u{3000}\u{85}"))), "x");
    assert_eq!(to_text(trimmed(&cs(" \u{200b} "))), "\u{200b}");
    assert_eq!(to_text(trimmed(&cs("   "))), "");
    assert_eq!(to_text(trimmed(&cs(""))), "");
    assert_eq!(to_text(trimmed(&cs("x"))), "x");
    for c in ['\u{9}', '\u{a}', '\u{b}', '\u{c}', '\u{d}', ' ', '\u{85}', '\u{a0}', '\u{1680}', '\u{2000}', '\u{200a}', '\u{2028}', '\u{2029}', '\u{202f}', '\u{205f}', '\u{3000}'] {
        assert!(c.is_whitespace());
        assert_eq!(to_text(trimmed(&[c, 'x', c])), "x");
    }
    for c in ['\u{8}', '\u{e}', '\u{1f}', '\u{84}', '\u{86}', '\u{1fff}', '\u{200b}', '\u{2030}', '\u{feff}'] {
        assert!(!c.is_whitespace());
        assert_eq!(trimmed(&[c, 'x', c]).len(), 3);
    }
}

#[test]
fn digits_are_read_exactly() {
    assert_eq!(parse_digits(&cs("")), Some(0));
    assert_eq!(parse_digits(&cs("0042")), Some(42));
    assert_eq!(parse_digits(&cs("340282366920938463463374607431768211455")), Some(u128::MAX));
    assert_eq!(parse_digits(&cs("340282366920938463463374607431768211456")), None);
    assert_eq!(parse_digits(&cs("12a")), None);
    assert_eq!(parse_digits(&cs("١٢")), None);
}

#[test]
fn decimals_are_read_exactly() {
    let read = |s: &str| parse_decimal(&cs(s)).map(|(d, k)| (number(&d), k));
    assert_eq!(read("74.13"), Some(("7413".to_string(), 2)));
    assert_eq!(read("0.999"), Some(("999".to_string(), 3)));
    assert_eq!(read("7"), Some(("7".to_string(), 0)));
    assert_eq!(read("7."), Some(("7".to_string(), 0)));
    assert_eq!(read(".7"), Some(("7".to_string(), 1)));
    assert_eq!(read("0.0004"), Some(("4".to_string(), 4)));
    assert_eq!(read("10.50"), Some(("1050".to_string(), 2)));
    assert_eq!(read("."), None);
    assert_eq!(read(""), None);
    assert_eq!(read("1.2.3"), None);
    assert_eq!(read("1,2"), None);
    assert_eq!(read("-1"), None);
    assert_eq!(
        read("123456789012345678901234567890123456789012345678901234567890.5"),
        Some(("1234567890123456789012345678901234567890123456789012345678905".to_string(), 1))
    );
    assert_eq!(read_digits(&cs("120")), Some(vec![0, 2, 1]));
    assert_eq!(read_digits(&cs("")), Some(vec![]));
    assert_eq!(read_digits(&cs("1a")), None);
}

#[test]
fn numbers_are_written_in_decimal() {
    let show = |n: u128| {
        let mut s = String::from(">");
        push_decimal(&mut s, n);
        s
    };
    assert_eq!(show(0), ">0");
    assert_eq!(show(7), ">7");
    assert_eq!(show(10), ">10");
    assert_eq!(show(1_002_003), ">1002003");
    assert_eq!(show(u128::MAX), ">340282366920938463463374607431768211455");
}

#[test]
fn replace_all_goes_from_left_to_right() {
    assert_eq!(replace_all("a-b-c", "-", "+"), "a+b+c");
    assert_eq!(replace_all("aaaa", "aa", "b"), "bb");
    assert_eq!(replace_all("aaa", "aa", "b"), "ba");
    assert_eq!(replace_all("abc", "", "x"), "abc");
    assert_eq!(replace_all("", "a", "x"), "");
    assert_eq!(replace_all("abc", "abcd", "x"), "abc");
    assert_eq!(replace_all("xDAY_NUMBERyDAY_NUMBER", "DAY_NUMBER", "7"), "x7y7");
    assert_eq!(replace_all("µ✖µ", "✖", ""), "µµ");
}

#[test]
fn new_day_has_its_paths_and_module() {
    let day = Day::new(3).unwrap();
    assert_eq!(input_path(day), "data/inputs/03.txt");
    assert_eq!(example_path(day, Part::new(1).unwrap()), "data/examples/03-1.txt");
    assert_eq!(example_path(Day::new(12).unwrap(), Part::new(2).unwrap()), "data/examples/12-2.txt");
    assert_eq!(bin_path(day), "src/bin/03.rs");
    assert_eq!(
        module_source("solution!(DAY_NUMBER);\nfn day() -> u8 { DAY_NUMBER }\n", day),
        "solution!(3);\nfn day() -> u8 { 3 }\n"
    );
    assert_eq!(module_source("nothing to fill", Day::new(25).unwrap()), "nothing to fill");
}

#[test]
fn whitespace_is_what_the_standard_library_says() {
    for n in 0..=0x10ffff_u32 {
        if let Some(c) = char::from_u32(n) {
            assert_eq!(char_is_whitespace(c), c.is_whitespace());
        }
    }
}

#[test]
fn digits_are_the_ten_ascii_digits() {
    for n in 0..=0x10ffff_u32 {
        if let Some(c) = char::from_u32(n) {
            assert_eq!(digit_of(c), if c.is_ascii_digit() { Some(n as u8 - b'0') } else { None });
        }
    }
}

#[test]
fn searching_agrees_with_the_standard_library() {
    let texts = ["", "a", "ab", "aab", "abab", "aaaa", ") (", "x) (y) (z", "a) () (b", "banana"];
    let patterns = ["a", "b", "ab", "aa", ") (", "ana", "na", "z", "banana", "bananas"];
    for text in texts {
        for pattern in patterns {
            let (t, p) = (cs(text), cs(pattern));
            assert_eq!(find(&t, &p), text.find(pattern));
            assert_eq!(rfind(&t, &p), text.rfind(pattern));
            assert_eq!(holds(&t, &p), text.contains(pattern));
            assert_eq!(to_text(take_before_first(&t, &p)), text.split(pattern).next().unwrap());
            assert_eq!(replace_all(text, pattern, "-+"), text.replace(pattern, "-+"));
            for i in 0..=text.len() + 1 {
                assert_eq!(matches_at(&t, &p, i), i <= text.len() && text[i..].starts_with(pattern));
            }
            let all: Vec<usize> =
                (0..=text.len()).filter(|i| text[*i..].starts_with(pattern)).collect();
            assert_eq!(find_all(&t, &p), all);
        }
    }
    for text in ["", " a ", "\t\n x y\r\n", "\u{2003}µ s\u{a0}", "   ", "x"] {
        assert_eq!(to_text(trimmed(&cs(text))), text.trim());
    }
}
