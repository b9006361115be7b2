use aoc2023::day00::{add_numbers, parse};

const EXAMPLE_INPUTS: &str = r#"1
2
3
"#;

#[test]
fn day00_example() {
    assert_eq!(add_numbers(vec![1, 2, 3]), 6);
}

#[test]
fn day00_parse() {
    assert_eq!(parse(EXAMPLE_INPUTS), Some(vec![1, 2, 3]));
}

#[test]
fn day00_parse_signed_and_bad() {
    assert_eq!(parse("-4\n10"), Some(vec![-4, 10]));
    assert_eq!(parse("-2147483648"), Some(vec![i32::MIN]));
    assert_eq!(parse("2147483648"), None);
    assert_eq!(parse("1\nx\n3"), None);
    assert_eq!(add_numbers(vec![-5, 7, -1]), 1);
    assert_eq!(add_numbers(vec![]), 0);
}
