use aoc2023::day11::{get_dark_matter, get_manhattan_distance, get_star_coordinates, parse_input, solve_for};

const EXAMPLE: &str = "...#......
.......#..
#.........
..........
......#...
.#........
.........#
..........
.......#..
#...#.....";

#[test]
fn day11_expansion() {
    assert_eq!(solve_for(EXAMPLE, 2), Some(374));
    assert_eq!(solve_for(EXAMPLE, 10), Some(1030));
    assert_eq!(solve_for(EXAMPLE, 100), Some(8410));
    assert_eq!(solve_for(EXAMPLE, 0), None);
    assert_eq!(solve_for("#.\n.", 2), None);
}

#[test]
fn day11_parts() {
    let u = parse_input(EXAMPLE).unwrap();
    let dark = get_dark_matter(&u);
    assert_eq!(dark.rows, vec![3, 7]);
    assert_eq!(dark.columns, vec![2, 5, 8]);
    let stars = get_star_coordinates(&u);
    assert_eq!(stars.len(), 9);
    assert_eq!(stars[0], (0, 3));
    assert_eq!(get_manhattan_distance(stars[4], stars[8], &dark, 2), Some(9));
    assert_eq!(get_manhattan_distance((2, 0), (6, 9), &dark, 2), Some(17));
    assert!(parse_input("..x").is_none());
}

#[test]
fn day11_longer_rows() {
    let u = parse_input("#..\n....#\n...").unwrap();
    let dark = get_dark_matter(&u);
    assert_eq!(dark.rows, vec![2]);
    assert_eq!(dark.columns, vec![1, 2]);
}
