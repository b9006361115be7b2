use std::collections::HashMap;

use aoc2023::day21::{get_neighbors, get_next, install_rock_to_the_edges, Tile};

const EXAMPLE_INPUT: &str = "...........
.....###.#.
.###.##..#.
..#.#...#..
....#.#....
.##..S####.
.##..#...#.
.......##..
.##.#.####.
.##..##.##.
...........";

fn as_map(g: &[Vec<Tile>], offset: i32) -> HashMap<(i32, i32), Tile> {
    let mut m = HashMap::new();
    for (y, row) in g.iter().enumerate() {
        for (x, &t) in row.iter().enumerate() {
            m.insert((x as i32 - offset, y as i32 - offset), t);
        }
    }
    m
}

fn get_example_input() -> HashMap<(i32, i32), Tile>
    {
        let mut map = HashMap::new();
        map.insert(( 0,0), Tile::Plot);
        map.insert(( 1,0), Tile::Plot);
        map.insert(( 2,0), Tile::Plot);
        map.insert(( 3,0), Tile::Plot);
        map.insert(( 4,0), Tile::Plot);
        map.insert(( 5,0), Tile::Plot);
        map.insert(( 6,0), Tile::Plot);
        map.insert(( 7,0), Tile::Plot);
        map.insert(( 8,0), Tile::Plot);
        map.insert(( 9,0), Tile::Plot);
        map.insert(( 10,0), Tile::Plot);
        map.insert(( 0,1), Tile::Plot);
        map.insert(( 1,1), Tile::Plot);
        map.insert(( 2,1), Tile::Plot);
        map.insert(( 3,1), Tile::Plot);
        map.insert(( 4,1), Tile::Plot);
        map.insert(( 5,1), Tile::Rock);
        map.insert(( 6,1), Tile::Rock);
        map.insert(( 7,1), Tile::Rock);
        map.insert(( 8,1), Tile::Plot);
        map.insert(( 9,1), Tile::Rock);
        map.insert(( 10,1), Tile::Plot);
        map
    }


const SMALL_INPUT: &str = "..#
.##";

fn get_small_input_with_installed_rocks() -> HashMap<(i32, i32), Tile>{
    let mut map = HashMap::new();

    map.insert((-1,-1), Tile::Rock);
    map.insert(( 0,-1), Tile::Rock);
    map.insert(( 1,-1), Tile::Rock);
    map.insert(( 2,-1), Tile::Rock);
    map.insert(( 3,-1), Tile::Rock);

    map.insert((-1, 0), Tile::Rock);
    map.insert(( 0, 0), Tile::Plot);
    map.insert(( 1, 0), Tile::Plot);
    map.insert(( 2, 0), Tile::Rock);
    map.insert(( 3, 0), Tile::Rock);

    map.insert((-1, 1), Tile::Rock);
    map.insert(( 0, 1), Tile::Plot);
    map.insert(( 1, 1), Tile::Rock);
    map.insert(( 2, 1), Tile::Rock);
    map.insert(( 3, 1), Tile::Rock);

    map.insert((-1, 2), Tile::Rock);
    map.insert(( 0, 2), Tile::Rock);
    map.insert(( 1, 2), Tile::Rock);
    map.insert(( 2, 2), Tile::Rock);
    map.insert(( 3, 2), Tile::Rock);

    map
}


#[test]
fn day21_parse() {
    let first_two = EXAMPLE_INPUT.lines().take(2).collect::<Vec<_>>().join("\n");
    assert_eq!(as_map(&aoc2023::day21::parse(&first_two).unwrap(), 0), get_example_input());
}

#[test]
fn install_rocks() {
    let bordered = install_rock_to_the_edges(&aoc2023::day21::parse(&SMALL_INPUT).unwrap());
    assert_eq!(as_map(&bordered, 1), get_small_input_with_installed_rocks());
}

#[test]
fn day21_solve_1() {
    assert_eq!(aoc2023::day21::solve_1(&aoc2023::day21::parse(&EXAMPLE_INPUT).unwrap(), 6), Some(16));
}

#[test]
fn day21_steps_and_neighbors() {
    let map = aoc2023::day21::parse(&EXAMPLE_INPUT).unwrap();
    assert_eq!(aoc2023::day21::solve_1(&map, 0), Some(1));
    assert_eq!(aoc2023::day21::solve_1(&map, 1), Some(2));
    assert_eq!(aoc2023::day21::solve_1(&map, 2), Some(4));
    assert_eq!(aoc2023::day21::solve_1(&aoc2023::day21::parse("...").unwrap(), 1), None);
    assert_eq!(aoc2023::day21::parse("S.x"), None);
    assert_eq!(get_neighbors((3, -2)), vec![(2, -2), (4, -2), (3, -3), (3, -1)]);
    let small = aoc2023::day21::parse("S..").unwrap();
    let next = get_next(&small, &vec![vec![true, false, false]]);
    assert_eq!(next, vec![vec![false, true, false]]);
}

#[test]
fn day21_valid_neighbors() {
    let small = aoc2023::day21::parse("..#\n.##").unwrap();
    assert_eq!(aoc2023::day21::get_valid_neigbors((1, 0), &small), vec![(0, 0), (1, -1)]);
    assert_eq!(aoc2023::day21::get_valid_neigbors((0, 0), &small).len(), 4);
}
