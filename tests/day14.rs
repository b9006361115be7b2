use aoc2023::day14::{Direction, Tile};

const SMALL_INPUT: &str = "O..
#..
OO.";

fn get_parsed_small_input() -> Vec<Vec<Tile>> {
    let mut platform = vec![vec![Tile::Empty; 3]; 3];
    platform[0][0] = Tile::Rock;
    platform[0][1] = Tile::Empty;
    platform[0][2] = Tile::Empty;
    platform[1][0] = Tile::Wall;
    platform[1][1] = Tile::Empty;
    platform[1][2] = Tile::Empty;
    platform[2][0] = Tile::Rock;
    platform[2][1] = Tile::Rock;
    platform[2][2] = Tile::Empty;
    platform
}

#[test]
fn parse_into_platform() {
    assert_eq!(aoc2023::day14::parse_into_platform(&SMALL_INPUT), Some(get_parsed_small_input()));
}

#[test]
fn get_total_load() {
    assert_eq!(aoc2023::day14::get_total_load(&get_parsed_small_input()), Some(5));
}

#[test]
fn day14_bad_tile_and_empty() {
    assert_eq!(aoc2023::day14::parse_into_platform("O.\n#x"), None);
    assert_eq!(aoc2023::day14::get_total_load(&vec![]), Some(0));
}

const SMALL_INPUT_2: &str = "O..
#O.
O..";

fn get_parsed_small_input_2_after_tilt() -> Vec<Vec<Tile>> {
    let mut platform = vec![vec![Tile::Empty; 3]; 3];
    platform[0][0] = Tile::Rock;
    platform[0][1] = Tile::Rock;
    platform[0][2] = Tile::Empty;
    platform[1][0] = Tile::Wall;
    platform[1][1] = Tile::Empty;
    platform[1][2] = Tile::Empty;
    platform[2][0] = Tile::Rock;
    platform[2][1] = Tile::Empty;
    platform[2][2] = Tile::Empty;
    platform
}

const EXAMPLE_INPUT: &str = "O....#....
O.OO#....#
.....##...
OO.#O....O
.O.....O#.
O.#..O.#.#
..O..#O..O
.......O..
#....###..
#OO..#....";

const TILTED_EXAMPLE_INPUT: &str = "OOOO.#.O..
OO..#....#
OO..O##..O
O..#.OO...
........#.
..#....#.#
..O..#.O.O
..O.......
#....###..
#....#....";

const EXAMPLE_INPUT_AFTER_1_CYCLE: &str = ".....#....
....#...O#
...OO##...
.OO#......
.....OOO#.
.O#...O#.#
....O#....
......OOOO
#...O###..
#..OO#....";

fn parse(s: &str) -> Vec<Vec<Tile>> {
    aoc2023::day14::parse_into_platform(s).unwrap()
}

#[test]
fn day14_solve_1() {
    assert_eq!(aoc2023::day14::solve_1(&EXAMPLE_INPUT), Some(136));
}

#[test]
fn day14_solve_2() {
    assert_eq!(aoc2023::day14::solve_2(&EXAMPLE_INPUT), Some(64));
}

#[test]
fn tilt_small_example() {
    assert_eq!(
        aoc2023::day14::tilt(&parse(&SMALL_INPUT_2), Direction::North),
        get_parsed_small_input_2_after_tilt()
    );
}

#[test]
fn tilt() {
    assert_eq!(
        aoc2023::day14::tilt(&parse(&EXAMPLE_INPUT), Direction::North),
        parse(&TILTED_EXAMPLE_INPUT)
    );
}

#[test]
fn tilt_1_cycle() {
    assert_eq!(
        aoc2023::day14::tilt_one_cycle(&parse(&EXAMPLE_INPUT)),
        parse(&EXAMPLE_INPUT_AFTER_1_CYCLE)
    );
}

#[test]
fn day14_other_directions() {
    let p = parse("O.#O.\n.O#..");
    assert_eq!(aoc2023::day14::tilt(&p, Direction::East), parse(".O#.O\n.O#.."));
    assert_eq!(aoc2023::day14::tilt(&p, Direction::West), parse("O.#O.\nO.#.."));
    assert_eq!(aoc2023::day14::tilt(&p, Direction::South), parse("..#..\nOO#O."));
    assert_eq!(aoc2023::day14::solve_1("O.\n#"), None);
}
