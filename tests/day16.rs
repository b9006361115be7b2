use aoc2023::day16::{next_for_pos, parse, solve_1, solve_2, Direction};

const EXAMPLE_INPUT: &str = r".|...\....
|.-.\.....
.....|-...
........|.
..........
.........\
..../.\\..
.-.-/..|..
.|....-|.\
..//.|....";

#[test]
fn day16_solve_1() {
    assert_eq!(solve_1(&parse(&EXAMPLE_INPUT).unwrap(), (-1, 0), Direction::Right), Some(46));
}

#[test]
fn day16_solve_2() {
    assert_eq!(solve_2(&parse(&EXAMPLE_INPUT).unwrap()), Some(51));
}

#[test]
fn day16_steps() {
    let f = parse(&EXAMPLE_INPUT).unwrap();
    assert_eq!(next_for_pos(&f, (-1, 0, Direction::Right)), vec![(0, 0, Direction::Right)]);
    assert_eq!(
        next_for_pos(&f, (0, 0, Direction::Right)),
        vec![(1, 0, Direction::Down), (1, 0, Direction::Up)]
    );
    assert_eq!(next_for_pos(&f, (5, 0, Direction::Up)), vec![]);
    assert_eq!(solve_1(&parse("..").unwrap(), (-1, 0), Direction::Right), Some(2));
    assert_eq!(solve_1(&parse("./").unwrap(), (-1, 0), Direction::Right), Some(2));
    assert!(parse(".x").is_none());
}

#[test]
fn day16_next_all() {
    let f = parse("./\n..").unwrap();
    let mut cur = vec![vec![vec![false; 4]; 2]; 2];
    cur[0][0][3] = true;
    let next = aoc2023::day16::get_next_all(&f, &cur);
    let mut want = vec![vec![vec![false; 4]; 2]; 2];
    want[0][1][0] = true;
    assert_eq!(next, want);
    let none = aoc2023::day16::get_next_all(&f, &want);
    assert_eq!(none, vec![vec![vec![false; 4]; 2]; 2]);
}
