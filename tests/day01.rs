use aoc2023::day01::{extract_first_and_last_digits, solve_1, solve_2};

#[test]
fn day01_example() {
    assert_eq!(extract_first_and_last_digits("1abc2"), 12);
    assert_eq!(extract_first_and_last_digits("a1b2c3d4e5f"), 15);
}

#[test]
fn example_part_2() {
    assert_eq!(solve_2("zoneight"), 18);
    assert_eq!(solve_2("eighthree"), 83);
}

#[test]
fn day01_single_digit_and_sums() {
    assert_eq!(extract_first_and_last_digits("treb7uchet"), 77);
    assert_eq!(solve_1("1abc2\npqr3stu8vwx\na1b2c3d4e5f\ntreb7uchet"), 142);
    assert_eq!(
        solve_2("two1nine\neightwothree\nabcone2threexyz\nxtwone3four\n4nineeightseven2\nzoneight234\n7pqrstsixteen"),
        281
    );
}
