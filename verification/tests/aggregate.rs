use simcom_finder::aggregate::{digit, parse_number, summarize, Radix, Summary};

fn texts(items: &[&str]) -> Vec<String> {
    items.iter().map(|s| String::from(*s)).collect()
}

#[test]
fn decimal_numbers_are_read() {
    assert_eq!(parse_number("0", Radix::Decimal), Some(0));
    assert_eq!(parse_number("2", Radix::Decimal), Some(2));
    assert_eq!(parse_number("007", Radix::Decimal), Some(7));
    assert_eq!(parse_number("4294967295", Radix::Decimal), Some(4294967295));
}

#[test]
fn hexadecimal_numbers_are_read() {
    assert_eq!(parse_number("1e0e", Radix::Hexadecimal), Some(7694));
    assert_eq!(parse_number("9001", Radix::Hexadecimal), Some(36865));
    assert_eq!(parse_number("FFFFFFFF", Radix::Hexadecimal), Some(4294967295));
    assert_eq!(parse_number("aB", Radix::Hexadecimal), Some(171));
}

#[test]
fn a_leading_plus_is_accepted() {
    assert_eq!(parse_number("+12", Radix::Decimal), Some(12));
    assert_eq!(parse_number("+", Radix::Decimal), None);
    assert_eq!(parse_number("++1", Radix::Decimal), None);
}

#[test]
fn numbers_too_large_are_rejected() {
    assert_eq!(parse_number("4294967296", Radix::Decimal), None);
    assert_eq!(parse_number("100000000", Radix::Hexadecimal), None);
    assert_eq!(parse_number("99999999999999999999999999", Radix::Decimal), None);
}

#[test]
fn malformed_numbers_are_rejected() {
    assert_eq!(parse_number("", Radix::Decimal), None);
    assert_eq!(parse_number("-1", Radix::Decimal), None);
    assert_eq!(parse_number(" 1", Radix::Decimal), None);
    assert_eq!(parse_number("1 ", Radix::Decimal), None);
    assert_eq!(parse_number("1e0e", Radix::Decimal), None);
    assert_eq!(parse_number("0x10", Radix::Hexadecimal), None);
    assert_eq!(parse_number("12g", Radix::Hexadecimal), None);
}

#[test]
fn digits_by_notation() {
    assert_eq!(digit('7', Radix::Decimal), Some(7));
    assert_eq!(digit('a', Radix::Decimal), None);
    assert_eq!(digit('a', Radix::Hexadecimal), Some(10));
    assert_eq!(digit('F', Radix::Hexadecimal), Some(15));
    assert_eq!(digit('g', Radix::Hexadecimal), None);
    assert_eq!(digit('/', Radix::Decimal), None);
}

#[test]
fn summary_gives_minimum_and_count() {
    let values = texts(&["3", "2", "9"]);
    assert_eq!(summarize(&values, Radix::Decimal), Some(Summary { minimum: 2, count: 3 }));
}

#[test]
fn summary_of_nothing_is_absent() {
    assert_eq!(summarize(&texts(&[]), Radix::Decimal), None);
}

#[test]
fn summary_with_minimum_zero_is_present() {
    let values = texts(&["0"]);
    assert_eq!(summarize(&values, Radix::Decimal), Some(Summary { minimum: 0, count: 1 }));
}

#[test]
fn summary_passes_over_values_that_are_no_numbers() {
    let values = texts(&["x", "5", "", "4"]);
    assert_eq!(summarize(&values, Radix::Decimal), Some(Summary { minimum: 4, count: 2 }));
    assert_eq!(summarize(&texts(&["x", "y"]), Radix::Decimal), None);
}

#[test]
fn summary_in_hexadecimal() {
    let values = texts(&["ff", "1a"]);
    assert_eq!(summarize(&values, Radix::Hexadecimal), Some(Summary { minimum: 26, count: 2 }));
}
