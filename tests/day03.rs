use std::collections::HashMap;

use aoc2023::day03::{get_all_non_numbers, get_all_numbers, solve_1, solve_2, Number};

const EXAMPLE_INPUT: &str = "467
#..
35.";

const EXAMPLE_INPUT_2: &str = "467
*..
35.";

const OFFICIAL_EXAMPLE_INPUT: &str = "467..114..
...*......
..35..633.
......#...
617*......
.....+.58.
..592.....
......755.
...$.*....
.664.598..";

fn get_example_hashmap() -> HashMap<(i32, i32), char> {
    HashMap::from([
        ((2, 0), '3'),
        ((0, 2), '7'),
        ((0, 1), '6'),
        ((2, 1), '5'),
        ((0, 0), '4'),
        ((1, 0), '#'),
    ])
}

#[test]
fn parse_input() {
    let cells: HashMap<(i32, i32), char> = aoc2023::day03::parse_input(&EXAMPLE_INPUT)
        .into_iter()
        .map(|(r, c, b)| ((r as i32, c as i32), b as char))
        .collect();
    assert_eq!(cells, get_example_hashmap());
}

#[test]
fn solve() {
    assert_eq!(solve_1(&EXAMPLE_INPUT), Some(502));
}

#[test]
fn day03_solve_2() {
    assert_eq!(solve_2(&EXAMPLE_INPUT_2), Some(16345));
}

#[test]
fn solve_2_official_example() {
    assert_eq!(solve_2(&OFFICIAL_EXAMPLE_INPUT), Some(467835));
}

#[test]
fn get_numbers() {
    assert_eq!(
        aoc2023::day03::get_numbers(&EXAMPLE_INPUT),
        Some(vec![
            Number { raw: 467, row: 0, start: 0, end: 3 },
            Number { raw: 35, row: 2, start: 0, end: 2 },
        ])
    );
}

#[test]
fn day03_official_part_one_and_filters() {
    assert_eq!(solve_1(&OFFICIAL_EXAMPLE_INPUT), Some(4361));
    let cells = aoc2023::day03::parse_input(&EXAMPLE_INPUT);
    assert_eq!(get_all_non_numbers(&cells), vec![(1, 0, b'#')]);
    assert_eq!(get_all_numbers(&cells).len(), 5);
    assert_eq!(aoc2023::day03::get_numbers("1\u{e9}2"), None);
    assert_eq!(solve_1("12.\n..."), Some(0));
}
