use aoc2023::day09::{extrapolate_begin, extrapolate_end, solve_for};

#[test]
fn day09_parse() {
    assert_eq!(
        aoc2023::day09::parse("0 3 6 9 12 15").unwrap().first().unwrap(),
        &[0, 3, 6, 9, 12, 15]
    );
}

#[test]
fn extrapolate() {
    assert_eq!(extrapolate_end(&[0, 3, 6, 9, 12, 15]), Some(18));
}

#[test]
fn day09_more() {
    assert_eq!(extrapolate_end(&[1, 3, 6, 10, 15, 21]), Some(28));
    assert_eq!(extrapolate_end(&[10, 13, 16, 21, 30, 45]), Some(68));
    assert_eq!(extrapolate_begin(&[10, 13, 16, 21, 30, 45]), Some(5));
    assert_eq!(extrapolate_end(&[]), Some(0));
    assert_eq!(extrapolate_end(&[i64::MAX, i64::MAX]), Some(i64::MAX));
    assert_eq!(extrapolate_end(&[i64::MIN, i64::MAX]), None);
    let input = "0 3 6 9 12 15\n1 3 6 10 15 21\n10 13 16 21 30 45";
    assert_eq!(solve_for(input, false), Some(114));
    assert_eq!(solve_for(input, true), Some(2));
    assert_eq!(aoc2023::day09::parse("1 -2  3"), Some(vec![vec![1, -2, 3]]));
    assert_eq!(aoc2023::day09::parse("1 x"), None);
}
