use aoc2023::day04::{parse, solve_1, solve_2, Card};

const EX_INPUT: &str = "Card 1: 41 48 83 86 17 | 83 86  6 31 17  9 48 53
Card 2: 13 32 20 16 61 | 61 30 68 82 17 32 24 19
Card 3:  1 21 53 59 44 | 69 82 63 72 16 21 14  1
Card 4: 41 92 73 84 69 | 59 84 76 51 58  5 54 83
Card 5: 87 83 26 28 32 | 88 30 70 12 93 22 82 36
Card 6: 31 18 13 56 72 | 74 77 10 23 35 67 36 11";

fn get_example_cards() -> Vec<Card> {
    vec![
        Card { winning_numbers: vec![41, 48, 83, 86, 17], guess: vec![83, 86, 6, 31, 17, 9, 48, 53] },
        Card { winning_numbers: vec![13, 32, 20, 16, 61], guess: vec![61, 30, 68, 82, 17, 32, 24, 19] },
        Card { winning_numbers: vec![1, 21, 53, 59, 44], guess: vec![69, 82, 63, 72, 16, 21, 14, 1] },
        Card { winning_numbers: vec![41, 92, 73, 84, 69], guess: vec![59, 84, 76, 51, 58, 5, 54, 83] },
        Card { winning_numbers: vec![87, 83, 26, 28, 32], guess: vec![88, 30, 70, 12, 93, 22, 82, 36] },
        Card { winning_numbers: vec![31, 18, 13, 56, 72], guess: vec![74, 77, 10, 23, 35, 67, 36, 11] },
    ]
}

#[test]
fn day04_example() {
    assert_eq!(parse(EX_INPUT), Some(get_example_cards()));
}

#[test]
fn get_count_of_matches() {
    assert_eq!(aoc2023::day04::get_count_of_matches(&get_example_cards()[0]), 4);
}

#[test]
fn calculate_points() {
    assert_eq!(aoc2023::day04::calculate_points(&get_example_cards()[0]), 8);
}

#[test]
fn count_of_total_cards() {
    assert_eq!(
        aoc2023::day04::count_of_total_cards(&get_example_cards()),
        Some(vec![1, 2, 4, 8, 14, 1])
    );
}

#[test]
fn day04_totals_and_edges() {
    assert_eq!(solve_1(EX_INPUT), Some(13));
    assert_eq!(solve_2(EX_INPUT), Some(30));
    let repeated = Card { winning_numbers: vec![5, 5, 7], guess: vec![5, 7, 7] };
    assert_eq!(aoc2023::day04::get_count_of_matches(&repeated), 2);
    let none = Card { winning_numbers: vec![1], guess: vec![2] };
    assert_eq!(aoc2023::day04::calculate_points(&none), 0);
    assert_eq!(parse("Card 1: 1 2 3"), None);
    assert_eq!(solve_2("Card 1: 1 | 1"), None);
}
