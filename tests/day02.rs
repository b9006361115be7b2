use aoc2023::day02::{is_draw_possible, parse_game_line, solve_1, solve_2, Cubes, Game};

const GAME_1_DRAWS: [Cubes; 3] = [
    Cubes { red: 4, green: 0, blue: 3 },
    Cubes { red: 1, green: 2, blue: 6 },
    Cubes { red: 0, green: 2, blue: 0 },
];

const EXAMPLE_INPUT: &str = "Game 1: 3 blue, 4 red; 1 red, 2 green, 6 blue; 2 green
Game 2: 1 blue, 2 green; 3 green, 4 blue, 1 red; 1 green, 1 blue
Game 3: 8 green, 6 blue, 20 red; 5 blue, 4 red, 13 green; 5 green, 1 red
Game 4: 1 green, 3 red, 6 blue; 3 green, 6 red; 3 green, 15 blue, 14 red
Game 5: 6 red, 1 blue, 3 green; 2 blue, 1 red, 2 green";

#[test]
fn day02_example() {
    assert_eq!(
        parse_game_line(EXAMPLE_INPUT.lines().next().unwrap()),
        Some(Game { id: 1, draws: GAME_1_DRAWS.into() })
    );
}

#[test]
fn count_valid_game_ids() {
    assert_eq!(solve_1(EXAMPLE_INPUT), Some(8));
}

#[test]
fn get_min_cubes_required() {
    assert_eq!(aoc2023::day02::get_min_cubes_required(&GAME_1_DRAWS), Cubes { red: 4, green: 2, blue: 6 });
}

#[test]
fn day02_solve_2() {
    assert_eq!(solve_2(EXAMPLE_INPUT), Some(2286));
}

#[test]
fn day02_malformed_and_limits() {
    assert_eq!(parse_game_line("Game 1 3 blue"), None);
    assert_eq!(parse_game_line("Game 1: 3 purple"), None);
    assert_eq!(parse_game_line("Round 1: 3 blue"), None);
    assert_eq!(solve_1("Game 1: 3 blue\nnonsense"), None);
    assert!(is_draw_possible(&Cubes { red: 12, green: 13, blue: 14 }, &Cubes { red: 12, green: 13, blue: 14 }));
    assert!(!is_draw_possible(&Cubes { red: 13, green: 0, blue: 0 }, &Cubes { red: 12, green: 13, blue: 14 }));
}
