use aoc2023::day13::{get_horizontal_symmetrical_index, get_vertical_symmetrical_index, summarize};

const VERTICAL_SYM_INPUT: &str = "#.##..##.
..#.##.#.
##......#
##......#
..#.##.#.
..##..##.
#.#.##.#.";

const HORIZONTAL_SYM_INPUT: &str = "#...##..#
#....#..#
..##..###
#####.##.
#####.##.
..##..###
#....#..#";

#[test]
fn vertical_symmetry() {
    assert_eq!(summarize(&VERTICAL_SYM_INPUT, 0), 5);
}

#[test]
fn summarize_wo_discrepancy() {
    assert_eq!(summarize(&HORIZONTAL_SYM_INPUT, 0), 400);
}

#[test]
fn summarize_with_discrepancy() {
    assert_eq!(summarize(&VERTICAL_SYM_INPUT, 1), 300);
}

#[test]
fn day13_indices_and_shapes() {
    assert_eq!(get_vertical_symmetrical_index(VERTICAL_SYM_INPUT, 0), Some(5));
    assert_eq!(get_horizontal_symmetrical_index(VERTICAL_SYM_INPUT, 0), None);
    assert_eq!(get_horizontal_symmetrical_index(HORIZONTAL_SYM_INPUT, 0), Some(4));
    assert_eq!(summarize(&HORIZONTAL_SYM_INPUT, 1), 100);
    assert_eq!(summarize("#.\n#", 0), 0);
    assert_eq!(summarize("#.#", 0), 0);
}
