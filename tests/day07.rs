use aoc2023::day07::{
    convert_to_num_for_part1, convert_to_num_for_part2, get_hand_type, get_hand_type_with_jokers,
    solve_1, Hand,
};

const EXAMPLE_INPUT: &str = "32T3K 765
T55J5 684
KK677 28
KTJJT 220
QQQJA 483";

fn get_example_hands() -> Vec<Hand> {
    vec![
        Hand { cards: vec![3, 2, 10, 3, 13], bid: 765 },
        Hand { cards: vec![10, 5, 5, 11, 5], bid: 684 },
        Hand { cards: vec![13, 13, 6, 7, 7], bid: 28 },
        Hand { cards: vec![13, 10, 11, 11, 10], bid: 220 },
        Hand { cards: vec![12, 12, 12, 11, 14], bid: 483 },
    ]
}

#[test]
fn parse_hands() {
    assert_eq!(aoc2023::day07::parse_hands(&EXAMPLE_INPUT, false), Some(get_example_hands()));
}

#[test]
fn get_hand_types() {
    assert_eq!(
        get_example_hands().iter().map(|hand| get_hand_type(&hand.cards)).collect::<Vec<_>>(),
        vec![2, 4, 3, 3, 4]
    );
}

#[test]
fn get_hand_type_after_jokers() {
    assert_eq!(
        get_example_hands()
            .iter()
            .map(|hand| {
                let mut hand_cards = hand.cards.clone();
                hand_cards.iter_mut().for_each(|num| {
                    if *num == 11 {
                        *num = 1;
                    }
                });
                get_hand_type_with_jokers(&hand_cards)
            })
            .collect::<Vec<_>>(),
        vec![2, 6, 3, 6, 6]
    );
}

#[test]
fn test_hand_type_with_joker() {
    assert_eq!(get_hand_type_with_jokers(&vec![1, 1, 1, 1, 1]), 7);
    assert_eq!(get_hand_type_with_jokers(&vec![1, 1, 1, 1, 10]), 7);
    assert_eq!(get_hand_type_with_jokers(&vec![1, 1, 1, 10, 10]), 7);
    assert_eq!(get_hand_type_with_jokers(&vec![1, 1, 10, 10, 10]), 7);
    assert_eq!(get_hand_type_with_jokers(&vec![1, 10, 10, 10, 10]), 7);
    assert_eq!(get_hand_type_with_jokers(&vec![1, 2, 3, 4, 5]), 2);
    assert_eq!(get_hand_type_with_jokers(&vec![13, 12, 10, 10, 10]), 4);
}

#[test]
fn day07_solve_2() {
    assert_eq!(aoc2023::day07::solve_2(&EXAMPLE_INPUT), Some(5905));
}

#[test]
fn day07_part_one_and_cards() {
    assert_eq!(solve_1(&EXAMPLE_INPUT), Some(6440));
    assert_eq!(convert_to_num_for_part1(b'J'), Some(11));
    assert_eq!(convert_to_num_for_part2(b'J'), Some(1));
    assert_eq!(convert_to_num_for_part1(b'7'), Some(7));
    assert_eq!(convert_to_num_for_part1(b'x'), None);
    assert_eq!(get_hand_type(&vec![2, 2, 3, 3, 3]), 5);
    assert_eq!(get_hand_type(&vec![2, 2, 2, 2, 3]), 6);
    assert_eq!(aoc2023::day07::parse_hands("32T3K", false), None);
    assert_eq!(solve_1("AAAAA 2\nAAAAA 3"), Some(2 + 2 * 3));
}
