use std::collections::HashMap;

use aoc2023::day08::{get_all_nodes_ending_with_a, lcm, parse_directions, parse_into_network, solve_1, solve_2};

const EXAMPLE_NETWORK: &str = "AAA = (BBB, CCC)
BBB = (DDD, EEE)
CCC = (ZZZ, GGG)
DDD = (DDD, DDD)
EEE = (EEE, EEE)
GGG = (GGG, GGG)
ZZZ = (ZZZ, ZZZ)";

const EXAMPLE_DIRECTIONS: &str = "RL";

fn get_example_network_as_nodes() -> HashMap<String, (String, String)> {
    let mut network = HashMap::new();
    network.insert("AAA".into(), ("BBB".into(), "CCC".into()));
    network.insert("BBB".into(), ("DDD".into(), "EEE".into()));
    network.insert("CCC".into(), ("ZZZ".into(), "GGG".into()));
    network.insert("DDD".into(), ("DDD".into(), "DDD".into()));
    network.insert("EEE".into(), ("EEE".into(), "EEE".into()));
    network.insert("GGG".into(), ("GGG".into(), "GGG".into()));
    network.insert("ZZZ".into(), ("ZZZ".into(), "ZZZ".into()));
    network
}

fn text(b: &[u8]) -> String {
    String::from_utf8(b.to_vec()).unwrap()
}

#[test]
fn day08_parse() {
    let nodes: HashMap<String, (String, String)> = parse_into_network(&EXAMPLE_NETWORK)
        .unwrap()
        .iter()
        .map(|n| (text(&n.name), (text(&n.left), text(&n.right))))
        .collect();
    assert_eq!(nodes, get_example_network_as_nodes());
    assert_eq!(parse_directions(&EXAMPLE_DIRECTIONS), vec![b'R', b'L']);
}

#[test]
fn least_common_multiplier() {
    assert_eq!(lcm(8, 12), Some(24));
}

#[test]
fn day08_walks() {
    let net = parse_into_network(EXAMPLE_NETWORK).unwrap();
    assert_eq!(solve_1(&net, &parse_directions("RL")), Some(2));
    let net2 = parse_into_network("AAA = (BBB, BBB)\nBBB = (AAA, ZZZ)\nZZZ = (ZZZ, ZZZ)").unwrap();
    assert_eq!(solve_1(&net2, &parse_directions("LLR")), Some(6));
    let ghosts = "11A = (11B, XXX)
11B = (XXX, 11Z)
11Z = (11B, XXX)
22A = (22B, XXX)
22B = (22C, 22C)
22C = (22Z, 22Z)
22Z = (22B, 22B)
XXX = (XXX, XXX)";
    let net3 = parse_into_network(ghosts).unwrap();
    assert_eq!(get_all_nodes_ending_with_a(&net3), vec![0, 3]);
    assert_eq!(solve_2(&net3, &parse_directions("LR")), Some(6));
    assert_eq!(solve_1(&net3, &parse_directions("LR")), None);
    assert_eq!(lcm(0, 5), Some(0));
    assert_eq!(lcm(7, 7), Some(7));
    assert_eq!(parse_into_network("AAA (BBB, CCC)"), None);
}
