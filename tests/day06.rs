use aoc2023::day06::calculate_possibilities;

#[test]
fn day06_races() {
    assert_eq!(calculate_possibilities(7, 9), 4);
    assert_eq!(calculate_possibilities(15, 40), 8);
    assert_eq!(calculate_possibilities(30, 200), 9);
    assert_eq!(calculate_possibilities(0, 0), 0);
    assert_eq!(calculate_possibilities(1, 0), 0);
    assert_eq!(calculate_possibilities(71530, 940200), 71503);
}

#[test]
fn day06_product() {
    assert_eq!(aoc2023::day06::product_of_possibilities(&vec![(7, 9), (15, 40), (30, 200)]), Some(288));
    assert_eq!(aoc2023::day06::product_of_possibilities(&vec![(1, 5), (7, 9)]), Some(0));
    assert_eq!(aoc2023::day06::product_of_possibilities(&vec![]), Some(1));
}
