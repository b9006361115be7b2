//! Cube games: each game lists draws of red, green and blue cubes; a game is
//! possible with a bag when no draw shows more cubes of a colour than the bag
//! holds.
use vstd::prelude::*;
use vstd::string::StringSliceAdditionalSpecFns;
use crate::text::{
    all_digits, digits_value, eq_bytes, lines, parse_u32, split, split_lines, split_on,
    strip_leading_space, strip_space, views,
};

verus! {

#[derive(PartialEq, Eq, Debug, Clone, Copy, Structural)]
pub struct Cubes {
    pub red: u32,
    pub green: u32,
    pub blue: u32,
}

#[derive(PartialEq, Eq, Debug)]
pub struct Game {
    pub id: u32,
    pub draws: Vec<Cubes>,
}

/// The bag of the first part holds 12 red, 13 green and 14 blue cubes.
pub const BAG_RED: u32 = 12;

pub const BAG_GREEN: u32 = 13;

pub const BAG_BLUE: u32 = 14;

pub open spec fn red_word() -> Seq<u8> {
    seq![0x72u8, 0x65, 0x64]
}

pub open spec fn green_word() -> Seq<u8> {
    seq![0x67u8, 0x72, 0x65, 0x65, 0x6e]
}

pub open spec fn blue_word() -> Seq<u8> {
    seq![0x62u8, 0x6c, 0x75, 0x65]
}

/// `c` with the count of the colour named `color` set to `n`.
pub open spec fn set_color(c: Cubes, color: Seq<u8>, n: u32) -> Option<Cubes> {
    if color == red_word() {
        Some(Cubes { red: n, ..c })
    } else if color == green_word() {
        Some(Cubes { green: n, ..c })
    } else if color == blue_word() {
        Some(Cubes { blue: n, ..c })
    } else {
        None
    }
}

/// The draw described by the first `k` comma-separated entries of `items`,
/// each `<count> <colour>` after an optional space; a colour given twice keeps
/// its last count.
pub open spec fn draw_of(items: Seq<Seq<u8>>, k: int) -> Option<Cubes>
    decreases k,
{
    if k <= 0 {
        Some(Cubes { red: 0, green: 0, blue: 0 })
    } else {
        match draw_of(items, k - 1) {
            None => None,
            Some(c) => {
                let words = split(strip_space(items[k - 1]), 0x20);
                if words.len() == 2 && all_digits(words[0]) && digits_value(words[0]) <= u32::MAX {
                    set_color(c, words[1], digits_value(words[0]) as u32)
                } else {
                    None
                }
            },
        }
    }
}

proof fn lemma_draw_stays_none(items: Seq<Seq<u8>>, k: int, j: int)
    requires
        0 <= k <= j,
        draw_of(items, k) is None,
    ensures
        draw_of(items, j) is None,
    decreases j - k,
{
    if j > k {
        lemma_draw_stays_none(items, k, j - 1);
    }
}

pub open spec fn draw_text(d: Seq<u8>) -> Option<Cubes> {
    draw_of(split(d, 0x2c), split(d, 0x2c).len() as int)
}

/// The draws of the first `k` semicolon-separated parts of `parts`.
pub open spec fn draws_of(parts: Seq<Seq<u8>>, k: int) -> Option<Seq<Cubes>>
    decreases k,
{
    if k <= 0 {
        Some(Seq::empty())
    } else {
        match (draws_of(parts, k - 1), draw_text(strip_space(parts[k - 1]))) {
            (Some(ds), Some(d)) => Some(ds.push(d)),
            _ => None,
        }
    }
}

proof fn lemma_draws_stay_none(parts: Seq<Seq<u8>>, k: int, j: int)
    requires
        0 <= k <= j,
        draws_of(parts, k) is None,
    ensures
        draws_of(parts, j) is None,
    decreases j - k,
{
    if j > k {
        lemma_draws_stay_none(parts, k, j - 1);
    }
}

pub open spec fn game_word() -> Seq<u8> {
    seq![0x47u8, 0x61, 0x6d, 0x65]
}

/// A game line: `Game <id>: <draw>; <draw>; ...`.
pub open spec fn game_of(line: Seq<u8>) -> Option<(u32, Seq<Cubes>)> {
    let halves = split(line, 0x3a);
    if halves.len() != 2 {
        None
    } else {
        let head = split(halves[0], 0x20);
        let parts = split(halves[1], 0x3b);
        if head.len() == 2 && head[0] == game_word() && all_digits(head[1]) && digits_value(head[1])
            <= u32::MAX {
            match draws_of(parts, parts.len() as int) {
                Some(ds) => Some((digits_value(head[1]) as u32, ds)),
                None => None,
            }
        } else {
            None
        }
    }
}

fn color_words() -> (r: (Vec<u8>, Vec<u8>, Vec<u8>))
    ensures
        r.0@ == red_word(),
        r.1@ == green_word(),
        r.2@ == blue_word(),
{
    let r = (vec![0x72u8, 0x65, 0x64], vec![0x67u8, 0x72, 0x65, 0x65, 0x6e], vec![0x62u8, 0x6c, 0x75, 0x65]);
    assert(r.0@ =~= red_word());
    assert(r.1@ =~= green_word());
    assert(r.2@ =~= blue_word());
    r
}

fn parse_draw(d: &[u8]) -> (r: Option<Cubes>)
    ensures
        r == draw_text(d@),
{
    let items = split_on(d, 0x2c);
    let ghost its = split(d@, 0x2c);
    let (red, green, blue) = color_words();
    let mut c = Cubes { red: 0, green: 0, blue: 0 };
    let mut k: usize = 0;
    assert(views(items@).len() == items@.len());
    while k < items.len()
        invariant
            views(items@) == its,
            its == split(d@, 0x2c),
            items@.len() == its.len(),
            k <= items@.len(),
            red@ == red_word(),
            green@ == green_word(),
            blue@ == blue_word(),
            draw_of(its, k as int) == Some(c),
        decreases items@.len() - k,
    {
        assert(items@[k as int]@ == its[k as int]);
        let item = strip_leading_space(items[k].as_slice());
        let words = split_on(item, 0x20);
        assert(views(words@).len() == words@.len());
        if words.len() != 2 {
            proof {
                lemma_draw_stays_none(its, k + 1, its.len() as int);
            }
            return None;
        }
        assert(words@[0]@ == split(item@, 0x20)[0]);
        assert(words@[1]@ == split(item@, 0x20)[1]);
        let n = match parse_u32(words[0].as_slice()) {
            Some(n) => n,
            None => {
                proof {
                    lemma_draw_stays_none(its, k + 1, its.len() as int);
                }
                return None;
            },
        };
        let color = words[1].as_slice();
        if eq_bytes(color, red.as_slice()) {
            c = Cubes { red: n, ..c };
        } else if eq_bytes(color, green.as_slice()) {
            c = Cubes { green: n, ..c };
        } else if eq_bytes(color, blue.as_slice()) {
            c = Cubes { blue: n, ..c };
        } else {
            proof {
                lemma_draw_stays_none(its, k + 1, its.len() as int);
            }
            return None;
        }
        k = k + 1;
    }
    Some(c)
}

/// Reads one game line; `None` when it does not have the game's shape.
pub fn parse_game_line(game_line: &str) -> (r: Option<Game>)
    ensures
        r is Some <==> game_of(game_line.spec_bytes()) is Some,
        r matches Some(g) ==> game_of(game_line.spec_bytes()) == Some((g.id, g.draws@)),
{
    parse_game_line_from(game_line.as_bytes())
}

fn parse_game_line_from(line: &[u8]) -> (r: Option<Game>)
    ensures
        r is Some <==> game_of(line@) is Some,
        r matches Some(g) ==> game_of(line@) == Some((g.id, g.draws@)),
{
    let halves = split_on(line, 0x3a);
    assert(views(halves@).len() == halves@.len());
    if halves.len() != 2 {
        return None;
    }
    assert(halves@[0]@ == split(line@, 0x3a)[0]);
    assert(halves@[1]@ == split(line@, 0x3a)[1]);
    let head = split_on(halves[0].as_slice(), 0x20);
    assert(views(head@).len() == head@.len());
    if head.len() != 2 {
        return None;
    }
    assert(head@[0]@ == split(halves@[0]@, 0x20)[0]);
    assert(head@[1]@ == split(halves@[0]@, 0x20)[1]);
    let game = vec![0x47u8, 0x61, 0x6d, 0x65];
    assert(game@ =~= game_word());
    if !eq_bytes(head[0].as_slice(), game.as_slice()) {
        return None;
    }
    let id = match parse_u32(head[1].as_slice()) {
        Some(id) => id,
        None => {
            return None;
        },
    };
    let parts = split_on(halves[1].as_slice(), 0x3b);
    let ghost ps = split(halves@[1]@, 0x3b);
    assert(views(parts@).len() == parts@.len());
    let mut draws: Vec<Cubes> = Vec::new();
    let mut k: usize = 0;
    while k < parts.len()
        invariant
            views(parts@) == ps,
            split(line@, 0x3a).len() == 2,
            ps == split(split(line@, 0x3a)[1], 0x3b),
            parts@.len() == ps.len(),
            k <= parts@.len(),
            draws_of(ps, k as int) == Some(draws@),
        decreases parts@.len() - k,
    {
        assert(parts@[k as int]@ == ps[k as int]);
        let part = strip_leading_space(parts[k].as_slice());
        match parse_draw(part) {
            Some(d) => {
                draws.push(d);
            },
            None => {
                proof {
                    lemma_draws_stay_none(ps, k + 1, ps.len() as int);
                }
                return None;
            },
        }
        k = k + 1;
    }
    Some(Game { id, draws })
}

/// The fewest cubes of each colour that allow every draw.
pub open spec fn min_cubes(draws: Seq<Cubes>, k: int) -> Cubes
    decreases k,
{
    if k <= 0 {
        Cubes { red: 0, green: 0, blue: 0 }
    } else {
        let m = min_cubes(draws, k - 1);
        let d = draws[k - 1];
        Cubes {
            red: if m.red < d.red {
                d.red
            } else {
                m.red
            },
            green: if m.green < d.green {
                d.green
            } else {
                m.green
            },
            blue: if m.blue < d.blue {
                d.blue
            } else {
                m.blue
            },
        }
    }
}

/// The fewest cubes of each colour that allow every draw: the largest count
/// of each colour over the draws.
pub fn get_min_cubes_required(draws: &[Cubes]) -> (r: Cubes)
    ensures
        r == min_cubes(draws@, draws@.len() as int),
        forall|i: int|
            0 <= i < draws@.len() ==> draws@[i].red <= r.red && draws@[i].green <= r.green
                && draws@[i].blue <= r.blue,
{
    let mut m = Cubes { red: 0, green: 0, blue: 0 };
    let mut k: usize = 0;
    while k < draws.len()
        invariant
            k <= draws@.len(),
            m == min_cubes(draws@, k as int),
            forall|i: int|
                0 <= i < k ==> draws@[i].red <= m.red && draws@[i].green <= m.green
                    && draws@[i].blue <= m.blue,
        decreases draws@.len() - k,
    {
        let d = draws[k];
        if m.red < d.red {
            m.red = d.red;
        }
        if m.green < d.green {
            m.green = d.green;
        }
        if m.blue < d.blue {
            m.blue = d.blue;
        }
        k = k + 1;
    }
    m
}

/// Whether a bag holding `reference` allows `draw`.
pub fn is_draw_possible(draw: &Cubes, reference: &Cubes) -> (r: bool)
    ensures
        r == (reference.red >= draw.red && reference.green >= draw.green && reference.blue
            >= draw.blue),
{
    reference.red >= draw.red && reference.green >= draw.green && reference.blue >= draw.blue
}


/// What a game adds to the total: its id if the bag allows every draw (first
/// part), or the power of its fewest cubes (second part).
pub open spec fn game_value(id: u32, draws: Seq<Cubes>, part2: bool) -> int {
    let m = min_cubes(draws, draws.len() as int);
    if part2 {
        m.red * m.green * m.blue
    } else if BAG_RED >= m.red && BAG_GREEN >= m.green && BAG_BLUE >= m.blue {
        id as int
    } else {
        0
    }
}

/// The total over the first `k` lines; `None` if one of them is no game.
pub open spec fn games_total(ls: Seq<Seq<u8>>, k: int, part2: bool) -> Option<int>
    decreases k,
{
    if k <= 0 {
        Some(0)
    } else {
        match (games_total(ls, k - 1, part2), game_of(ls[k - 1])) {
            (Some(t), Some((id, ds))) => Some(t + game_value(id, ds, part2)),
            _ => None,
        }
    }
}

proof fn lemma_value_nonneg(id: u32, draws: Seq<Cubes>, part2: bool)
    ensures
        game_value(id, draws, part2) >= 0,
{
    let m = min_cubes(draws, draws.len() as int);
    assert(m.red * m.green * m.blue >= 0) by (nonlinear_arith);
}

proof fn lemma_total_nonneg(ls: Seq<Seq<u8>>, k: int, part2: bool)
    ensures
        games_total(ls, k, part2) matches Some(a) ==> a >= 0,
    decreases k,
{
    if k > 0 {
        lemma_total_nonneg(ls, k - 1, part2);
        if let Some((id, ds)) = game_of(ls[k - 1]) {
            lemma_value_nonneg(id, ds, part2);
        }
    }
}

proof fn lemma_total_grows(ls: Seq<Seq<u8>>, k: int, j: int, part2: bool)
    requires
        0 <= k <= j,
    ensures
        games_total(ls, k, part2) is None ==> games_total(ls, j, part2) is None,
        games_total(ls, j, part2) matches Some(b) ==> games_total(ls, k, part2) matches Some(a)
            && 0 <= a <= b,
    decreases j,
{
    lemma_total_nonneg(ls, k, part2);
    if j > k {
        lemma_total_grows(ls, k, j - 1, part2);
        if let Some((id, ds)) = game_of(ls[j - 1]) {
            lemma_value_nonneg(id, ds, part2);
        }
    }
}

fn sum_games(input: &str, part2: bool) -> (r: Option<u64>)
    ensures
        r matches Some(v) ==> games_total(
            lines(input.spec_bytes()),
            lines(input.spec_bytes()).len() as int,
            part2,
        ) == Some(v as int),
        r is None ==> match games_total(
            lines(input.spec_bytes()),
            lines(input.spec_bytes()).len() as int,
            part2,
        ) {
            Some(t) => t > u64::MAX,
            None => true,
        },
{
    let ls = split_lines(input.as_bytes());
    let ghost ln = lines(input.spec_bytes());
    assert(views(ls@).len() == ls@.len());
    let mut total: u64 = 0;
    let mut i: usize = 0;
    while i < ls.len()
        invariant
            views(ls@) == ln,
            ln == lines(input.spec_bytes()),
            ls@.len() == ln.len(),
            i <= ls@.len(),
            games_total(ln, i as int, part2) == Some(total as int),
        decreases ls@.len() - i,
    {
        assert(ls@[i as int]@ == ln[i as int]);
        let line = ls[i].as_slice();
        proof {
            lemma_total_grows(ln, i + 1, ln.len() as int, part2);
        }
        let g = match parse_game_line_from(line) {
            Some(g) => g,
            None => {
                return None;
            },
        };
        let m = get_min_cubes_required(g.draws.as_slice());
        let v: u64 = if part2 {
            proof {
                assert(m.red * m.green <= u32::MAX * u32::MAX) by (nonlinear_arith)
                    requires
                        m.red <= u32::MAX,
                        m.green <= u32::MAX,
                ;
            }
            match (m.red as u64 * m.green as u64).checked_mul(m.blue as u64) {
                Some(p) => p,
                None => {
                    proof {
                        lemma_total_grows(ln, i + 1, ln.len() as int, part2);
                    }
                    return None;
                },
            }
        } else if is_draw_possible(&m, &Cubes { red: BAG_RED, green: BAG_GREEN, blue: BAG_BLUE }) {
            g.id as u64
        } else {
            0
        };
        assert(v == game_value(g.id, g.draws@, part2));
        total = match total.checked_add(v) {
            Some(t) => t,
            None => {
                return None;
            },
        };
        i = i + 1;
    }
    Some(total)
}

/// The sum of the ids of the games that the bag of 12 red, 13 green and 14
/// blue cubes allows; `None` if a line is no game or the sum exceeds 64 bits.
pub fn solve_1(input: &str) -> (r: Option<u64>)
    ensures
        r matches Some(v) ==> games_total(
            lines(input.spec_bytes()),
            lines(input.spec_bytes()).len() as int,
            false,
        ) == Some(v as int),
        r is None ==> match games_total(
            lines(input.spec_bytes()),
            lines(input.spec_bytes()).len() as int,
            false,
        ) {
            Some(t) => t > u64::MAX,
            None => true,
        },
{
    sum_games(input, false)
}

/// The sum over the games of the product of their fewest red, green and blue
/// cubes; `None` if a line is no game or the sum exceeds 64 bits.
pub fn solve_2(input: &str) -> (r: Option<u64>)
    ensures
        r matches Some(v) ==> games_total(
            lines(input.spec_bytes()),
            lines(input.spec_bytes()).len() as int,
            true,
        ) == Some(v as int),
        r is None ==> match games_total(
            lines(input.spec_bytes()),
            lines(input.spec_bytes()).len() as int,
            true,
        ) {
            Some(t) => t > u64::MAX,
            None => true,
        },
{
    sum_games(input, true)
}

} // verus!
