use aoc2023::day23::{
    build_graph, get_valid_neighbors, longest_hike, parse, parse_for_part2, solve, solve_1, to_text, BuildError,
    HikeError, Mode, ParseError, Tile, Trail,
};

const EXAMPLE_INPUT: &str = "#.#####################
#.......#########...###
#######.#########.#.###
###.....#.>.>.###.#.###
###v#####.#v#.###.#.###
###.>...#.#.#.....#...#
###v###.#.#.#########.#
###...#.#.#.......#...#
#####.#.#.#######.#.###
#.....#.#.#.......#...#
#.#####.#.#.#########v#
#.#...#...#...###...>.#
#.#.#v#######v###.###v#
#...#.>.#...>.>.#.###.#
#####v#.#.###v#.#.###.#
#.....#...#...#.#.#...#
#.#########.###.#.#.###
#...###...#...#...#.###
###.###.#.###v#####v###
#...#...#.#.>.>.#.>.###
#.###.###.#.###.#.#v###
#.....###...###...#...#
#####################.#";

#[test]
fn day23_solve_1() {
    assert_eq!(solve_1(&parse(&EXAMPLE_INPUT).unwrap()), Ok(94));
}

#[test]
fn day23_solve_2() {
    assert_eq!(solve_1(&parse_for_part2(&EXAMPLE_INPUT).unwrap()), Ok(154));
}

#[test]
fn hike_both_modes() {
    assert_eq!(solve(EXAMPLE_INPUT), (Ok(94), Ok(154)));
    let with_break = format!("{}\n", EXAMPLE_INPUT);
    assert_eq!(solve(&with_break), (Ok(94), Ok(154)));
}

#[test]
fn parse_then_write_back() {
    let t = parse(EXAMPLE_INPUT).unwrap();
    assert_eq!(t.width, 23);
    assert_eq!(t.height, 23);
    assert_eq!(to_text(&t), EXAMPLE_INPUT.as_bytes().to_vec());
    let small = "#.#\n#>#\n#.#";
    assert_eq!(to_text(&parse(small).unwrap()), small.as_bytes().to_vec());
}

#[test]
fn parse_reads_tiles() {
    let t = parse("#.#\n#>#\n#v#\n#^#\n#<#").unwrap();
    assert_eq!(t.tiles[1], Tile::Path);
    assert_eq!(t.tiles[0], Tile::Forest);
    assert_eq!(t.tiles[4], Tile::RightSlope);
    assert_eq!(t.tiles[7], Tile::DownSlope);
    assert_eq!(t.tiles[10], Tile::UpSlope);
    assert_eq!(t.tiles[13], Tile::LeftSlope);
    let u = parse_for_part2("#.#\n#>#\n#v#").unwrap();
    assert_eq!(u.tiles[4], Tile::Path);
    assert_eq!(u.tiles[7], Tile::Path);
}

#[test]
fn parse_errors() {
    assert_eq!(parse(""), Err(ParseError::Empty));
    assert_eq!(parse("\n#.#"), Err(ParseError::Empty));
    assert_eq!(parse("#.#\n#x#"), Err(ParseError::UnknownTile(5)));
    assert_eq!(parse("#.#\n#.\n#.#"), Err(ParseError::Ragged(6)));
    assert_eq!(parse("#.#\n#.##"), Err(ParseError::Ragged(7)));
    assert_eq!(parse("#.#\n#."), Err(ParseError::Ragged(6)));
    assert_eq!(parse("#.#\n"), parse("#.#"));
    assert!(parse("#.#\n").is_ok());
    assert_eq!(parse("#.#\n\n"), Err(ParseError::Ragged(4)));
    assert_eq!(parse_for_part2("#>#\n").unwrap().tiles, vec![Tile::Forest, Tile::Path, Tile::Forest]);
    assert_eq!(
        solve("#.#\n#?#"),
        (
            Err(HikeError::Parse(ParseError::UnknownTile(5))),
            Err(HikeError::Parse(ParseError::UnknownTile(5)))
        )
    );
}

#[test]
fn unconstrained_never_shorter() {
    let c = longest_hike(&parse(EXAMPLE_INPUT).unwrap(), Mode::Constrained).unwrap();
    let u = longest_hike(&parse(EXAMPLE_INPUT).unwrap(), Mode::Unconstrained).unwrap();
    assert!(u >= c);
    assert_eq!(u, 154);
}

#[test]
fn junctions_are_connected() {
    let t = parse(EXAMPLE_INPUT).unwrap();
    for mode in [Mode::Constrained, Mode::Unconstrained] {
        let g = build_graph(&t, mode).unwrap();
        assert_eq!(g.junctions[0], 1);
        assert_eq!(g.junctions.len(), 9);
        assert!(g.edges[0].len() > 0);
        for k in 1..g.junctions.len() {
            assert!(g.edges.iter().any(|out| out.iter().any(|&(j, _)| j == k)));
        }
    }
}

#[test]
fn building_twice_gives_same_graph() {
    let t = parse(EXAMPLE_INPUT).unwrap();
    for mode in [Mode::Constrained, Mode::Unconstrained] {
        let a = build_graph(&t, mode).unwrap();
        let b = build_graph(&t, mode).unwrap();
        assert_eq!(a, b);
    }
}

#[test]
fn single_corridor() {
    let map = "#.###\n#...#\n###.#";
    assert_eq!(solve(map), (Ok(4), Ok(4)));
    let straight = "#.#\n#.#\n#.#\n#.#";
    assert_eq!(solve(straight), (Ok(3), Ok(3)));
    assert_eq!(solve("#.###\n#...#\n###.#\n###.#"), (Ok(5), Ok(5)));
}

#[test]
fn slopes_wall_in_the_exit() {
    let map = "#.###\n#...#\n#.#.#\n#..^#\n###.#";
    let t = parse(map).unwrap();
    assert_eq!(solve_1(&t), Err(HikeError::NoPath));
    let u = parse_for_part2(map).unwrap();
    assert_eq!(solve_1(&u), Ok(6));
    assert_eq!(solve(map), (Err(HikeError::NoPath), Ok(6)));
    assert_eq!(solve("#.#\n#.#\n#^#\n#.#\n#.#"), (Err(HikeError::NoPath), Ok(4)));
}

#[test]
fn missing_gaps() {
    let t = parse("###\n#.#\n#.#").unwrap();
    assert_eq!(build_graph(&t, Mode::Constrained), Err(BuildError::NoEntry));
    let t = parse("#.#\n#.#\n###").unwrap();
    assert_eq!(build_graph(&t, Mode::Constrained), Err(BuildError::NoExit));
    let t = parse("...\n#.#\n#.#").unwrap();
    assert_eq!(solve_1(&t), Err(HikeError::Build(BuildError::NoEntry)));
}

fn brute_force(t: &Trail, constrained: bool) -> Option<usize> {
    let w = t.width as i64;
    let h = t.height as i64;
    let at = |x: i64, y: i64| t.tiles[(y * w + x) as usize];
    let start = (0..w).find(|&x| at(x, 0) != Tile::Forest)?;
    let goal = (0..w).find(|&x| at(x, h - 1) != Tile::Forest)?;
    let mut seen = vec![false; t.tiles.len()];
    fn slope_ok(tile: Tile, d: (i64, i64)) -> bool {
        match tile {
            Tile::UpSlope => d == (0, -1),
            Tile::DownSlope => d == (0, 1),
            Tile::LeftSlope => d == (-1, 0),
            Tile::RightSlope => d == (1, 0),
            _ => true,
        }
    }
    fn go(
        t: &Trail,
        x: i64,
        y: i64,
        goal: (i64, i64),
        seen: &mut Vec<bool>,
        constrained: bool,
    ) -> Option<usize> {
        if (x, y) == goal {
            return Some(0);
        }
        let w = t.width as i64;
        let h = t.height as i64;
        let mut best: Option<usize> = None;
        for d in [(0, -1), (0, 1), (-1, 0), (1, 0)] {
            let (nx, ny) = (x + d.0, y + d.1);
            if nx < 0 || ny < 0 || nx >= w || ny >= h {
                continue;
            }
            let id = (ny * w + nx) as usize;
            let here = t.tiles[(y * w + x) as usize];
            let there = t.tiles[id];
            if there == Tile::Forest || seen[id] {
                continue;
            }
            if constrained && !(slope_ok(here, d) && slope_ok(there, d)) {
                continue;
            }
            seen[id] = true;
            if let Some(b) = go(t, nx, ny, goal, seen, constrained) {
                best = Some(best.map_or(b + 1, |a: usize| a.max(b + 1)));
            }
            seen[id] = false;
        }
        best
    }
    seen[start as usize] = true;
    go(t, start, 0, (goal, h - 1), &mut seen, constrained)
}

#[test]
fn contraction_matches_cell_search() {
    let maps = [
        "#.#####\n#.....#\n#.#.#.#\n#.....#\n#####.#",
        "#.#####\n#...>.#\n#v#.#v#\n#.....#\n#####.#",
        "#.######\n#......#\n#.##.#.#\n#......#\n#.#.##.#\n#......#\n######.#",
        "#.###\n#...#\n#.#.#\n#..^#\n###.#",
        "#.###\n#...#\n#.#^#\n#...#\n###.#",
    ];
    for map in maps {
        let t = parse(map).unwrap();
        let c = longest_hike(&t, Mode::Constrained).ok().map(|v| v as usize);
        assert_eq!(c, brute_force(&t, true), "{}", map);
        let u = longest_hike(&t, Mode::Unconstrained).ok().map(|v| v as usize);
        assert_eq!(u, brute_force(&t, false), "{}", map);
    }
    let t = parse(EXAMPLE_INPUT).unwrap();
    assert_eq!(brute_force(&t, true), Some(94));
}

#[test]
fn legal_steps_follow_slopes() {
    let t = parse(EXAMPLE_INPUT).unwrap();
    assert_eq!(get_valid_neighbors(&t, Mode::Constrained, 1), vec![24]);
    assert_eq!(get_valid_neighbors(&t, Mode::Constrained, 80), vec![103, 81]);
    assert_eq!(get_valid_neighbors(&t, Mode::Unconstrained, 80), vec![103, 79, 81]);
}
