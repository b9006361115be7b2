//! Rolling rocks on a platform: round rocks roll as far as they can when the
//! platform is tilted, and the load on the north beams counts each round rock
//! by its distance from the south edge.
use vstd::prelude::*;
use vstd::string::StringSliceAdditionalSpecFns;
use crate::text::{lines, split_lines, views};

verus! {

#[derive(PartialEq, Eq, Debug, Clone, Copy, Structural)]
pub enum Tile {
    Empty,
    Wall,
    Rock,
}

pub open spec fn tile_of(b: u8) -> Option<Tile> {
    if b == 0x2e {
        Some(Tile::Empty)
    } else if b == 0x23 {
        Some(Tile::Wall)
    } else if b == 0x4f {
        Some(Tile::Rock)
    } else {
        None
    }
}

/// Each line's bytes read as tiles: `.` empty, `#` cube-shaped rock, `O`
/// round rock.
pub open spec fn platform_text(ls: Seq<Seq<u8>>, p: Seq<Seq<Tile>>) -> bool {
    &&& p.len() == ls.len()
    &&& forall|y: int|
        0 <= y < ls.len() ==> (#[trigger] p[y]).len() == ls[y].len() && forall|x: int|
            0 <= x < ls[y].len() ==> tile_of(ls[y][x]) == Some(#[trigger] p[y][x])
}

pub open spec fn grid_view(p: Seq<Vec<Tile>>) -> Seq<Seq<Tile>> {
    p.map_values(|r: Vec<Tile>| r@)
}

/// Reads a platform, one row per line; `None` on a byte other than `.`, `#`
/// and `O`.
pub fn parse_into_platform(input: &str) -> (r: Option<Vec<Vec<Tile>>>)
    ensures
        r matches Some(p) ==> platform_text(lines(input.spec_bytes()), grid_view(p@)),
        r is None ==> exists|y: int, x: int|
            0 <= y < lines(input.spec_bytes()).len() && 0 <= x < lines(input.spec_bytes())[y].len()
                && tile_of(#[trigger] lines(input.spec_bytes())[y][x]) is None,
{
    let ls = split_lines(input.as_bytes());
    let ghost ln = lines(input.spec_bytes());
    assert(views(ls@).len() == ls@.len());
    let mut p: Vec<Vec<Tile>> = Vec::new();
    let mut y: usize = 0;
    while y < ls.len()
        invariant
            views(ls@) == ln,
            ln == lines(input.spec_bytes()),
            ls@.len() == ln.len(),
            y <= ls@.len(),
            p@.len() == y,
            forall|j: int|
                0 <= j < y ==> (#[trigger] grid_view(p@)[j]).len() == ln[j].len() && forall|x: int|
                    0 <= x < ln[j].len() ==> tile_of(ln[j][x]) == Some(
                        #[trigger] grid_view(p@)[j][x],
                    ),
        decreases ls@.len() - y,
    {
        assert(ls@[y as int]@ == ln[y as int]);
        let line = &ls[y];
        let mut row: Vec<Tile> = Vec::new();
        let mut x: usize = 0;
        while x < line.len()
            invariant
                x <= line@.len(),
                line@ == ln[y as int],
                y < ln.len(),
                ln == lines(input.spec_bytes()),
                p@.len() == y,
                forall|j: int|
                    0 <= j < y ==> (#[trigger] grid_view(p@)[j]).len() == ln[j].len() && forall|
                        x: int,
                    |
                        0 <= x < ln[j].len() ==> tile_of(ln[j][x]) == Some(
                            #[trigger] grid_view(p@)[j][x],
                        ),
                row@.len() == x,
                forall|i: int| 0 <= i < x ==> tile_of(line@[i]) == Some(#[trigger] row@[i]),
            decreases line@.len() - x,
        {
            let b = line[x];
            let t = if b == 0x2e {
                Tile::Empty
            } else if b == 0x23 {
                Tile::Wall
            } else if b == 0x4f {
                Tile::Rock
            } else {
                assert(tile_of(ln[y as int][x as int]) is None);
                return None;
            };
            row.push(t);
            x = x + 1;
        }
        let ghost before = p@;
        let ghost rv = row@;
        p.push(row);
        assert(forall|j: int| 0 <= j < y ==> grid_view(p@)[j] == grid_view(before)[j]);
        assert(grid_view(p@)[y as int] == rv);
        assert forall|x: int| 0 <= x < ln[y as int].len() implies tile_of(ln[y as int][x]) == Some(
            #[trigger] grid_view(p@)[y as int][x],
        ) by {
            assert(tile_of(line@[x]) == Some(rv[x]));
        }
        assert forall|j: int| 0 <= j <= y implies (#[trigger] grid_view(p@)[j]).len() == ln[j].len()
            && forall|x: int|
            0 <= x < ln[j].len() ==> tile_of(ln[j][x]) == Some(#[trigger] grid_view(p@)[j][x]) by {
            if j < y {
                assert(grid_view(p@)[j] == grid_view(before)[j]);
                assert forall|x: int| 0 <= x < ln[j].len() implies tile_of(ln[j][x]) == Some(
                    #[trigger] grid_view(p@)[j][x],
                ) by {
                    assert(tile_of(ln[j][x]) == Some(grid_view(before)[j][x]));
                }
            }
        }
        y = y + 1;
    }
    Some(p)
}

/// The round rocks among the first `k` tiles of a row.
pub open spec fn rocks(row: Seq<Tile>, k: int) -> int
    decreases k,
{
    if k <= 0 {
        0
    } else {
        rocks(row, k - 1) + if row[k - 1] == Tile::Rock {
            1int
        } else {
            0
        }
    }
}

/// The load of the first `k` rows: each round rock counts its row's distance
/// from the south edge, the last row counting one.
pub open spec fn load(p: Seq<Seq<Tile>>, k: int) -> int
    decreases k,
{
    if k <= 0 {
        0
    } else {
        load(p, k - 1) + rocks(p[k - 1], p[k - 1].len() as int) * (p.len() - (k - 1))
    }
}

proof fn lemma_rocks_nonneg(row: Seq<Tile>, k: int)
    ensures
        rocks(row, k) >= 0,
    decreases k,
{
    if k > 0 {
        lemma_rocks_nonneg(row, k - 1);
    }
}

/// The load of fewer rows is no larger, and never negative.
proof fn lemma_load_grows(p: Seq<Seq<Tile>>, k: int, j: int)
    requires
        0 <= k <= j <= p.len(),
    ensures
        0 <= load(p, k) <= load(p, j),
    decreases j,
{
    if j > 0 {
        if j > k {
            lemma_load_grows(p, k, j - 1);
        } else {
            lemma_load_grows(p, j - 1, j - 1);
        }
        lemma_rocks_nonneg(p[j - 1], p[j - 1].len() as int);
        assert(rocks(p[j - 1], p[j - 1].len() as int) * (p.len() - (j - 1)) >= 0) by (nonlinear_arith)
            requires
                rocks(p[j - 1], p[j - 1].len() as int) >= 0,
                p.len() - (j - 1) >= 0,
        ;
    }
}

/// The total load on the north beams; `None` exactly when it exceeds the
/// word size.
pub fn get_total_load(platform: &Vec<Vec<Tile>>) -> (r: Option<usize>)
    ensures
        r matches Some(v) ==> v == load(grid_view(platform@), platform@.len() as int),
        r is None ==> load(grid_view(platform@), platform@.len() as int) > usize::MAX,
{
    let ghost g = grid_view(platform@);
    let h = platform.len();
    let mut total: usize = 0;
    let mut y: usize = 0;
    while y < h
        invariant
            h == platform@.len(),
            g == grid_view(platform@),
            g.len() == h,
            y <= h,
            total == load(g, y as int),
        decreases h - y,
    {
        let row = &platform[y];
        assert(g[y as int] == row@);
        let mut count: usize = 0;
        let mut x: usize = 0;
        while x < row.len()
            invariant
                x <= row@.len(),
                count == rocks(row@, x as int),
                count <= x,
            decreases row@.len() - x,
        {
            if row[x] == Tile::Rock {
                count = count + 1;
            }
            x = x + 1;
        }
        proof {
            lemma_load_grows(g, y + 1, h as int);
            lemma_load_grows(g, y as int, y + 1);
        }
        let part = match count.checked_mul(h - y) {
            Some(v) => v,
            None => {
                return None;
            },
        };
        total = match total.checked_add(part) {
            Some(v) => v,
            None => {
                return None;
            },
        };
        y = y + 1;
    }
    Some(total)
}


/// Where the stretch between cube-shaped rocks that holds index `i` starts:
/// just after the nearest wall before `i`.
pub open spec fn seg_start(line: Seq<Tile>, i: int) -> int
    decreases i,
{
    if i <= 0 {
        0
    } else if line[i - 1] == Tile::Wall {
        i
    } else {
        seg_start(line, i - 1)
    }
}

/// Where it ends: at the nearest wall from `i` on, or the end of the line.
pub open spec fn seg_end(line: Seq<Tile>, i: int) -> int
    decreases line.len() - i,
{
    if i >= line.len() {
        line.len() as int
    } else if line[i] == Tile::Wall {
        i
    } else {
        seg_end(line, i + 1)
    }
}

/// The round rocks at indices `a..b`.
pub open spec fn rocks_in(line: Seq<Tile>, a: int, b: int) -> int
    decreases b - a,
{
    if b <= a {
        0
    } else {
        rocks_in(line, a, b - 1) + if line[b - 1] == Tile::Rock {
            1int
        } else {
            0
        }
    }
}

/// The line with every round rock rolled toward its start: walls stay, and
/// each stretch between walls holds its round rocks at its start.
pub open spec fn rolled(line: Seq<Tile>) -> Seq<Tile> {
    Seq::new(
        line.len(),
        |i: int|
            if line[i] == Tile::Wall {
                Tile::Wall
            } else if i - seg_start(line, i) < rocks_in(line, seg_start(line, i), seg_end(line, i)) {
                Tile::Rock
            } else {
                Tile::Empty
            },
    )
}

proof fn lemma_seg_start(line: Seq<Tile>, s: int, j: int)
    requires
        0 <= s <= j < line.len(),
        s == 0 || line[s - 1] == Tile::Wall,
        forall|k: int| s <= k < j ==> line[k] != Tile::Wall,
    ensures
        seg_start(line, j) == s,
    decreases j,
{
    if j > s {
        lemma_seg_start(line, s, j - 1);
    }
}

proof fn lemma_seg_end(line: Seq<Tile>, e: int, j: int)
    requires
        0 <= j <= e <= line.len(),
        e == line.len() || line[e] == Tile::Wall,
        forall|k: int| j <= k < e ==> line[k] != Tile::Wall,
    ensures
        seg_end(line, j) == e,
    decreases e - j,
{
    if j < e {
        lemma_seg_end(line, e, j + 1);
    }
}

/// Rolls the round rocks of a line toward its start.
fn roll_line(line: &Vec<Tile>) -> (r: Vec<Tile>)
    ensures
        r@ == rolled(line@),
{
    let n = line.len();
    let ghost want = rolled(line@);
    let mut out: Vec<Tile> = Vec::new();
    let mut i: usize = 0;
    while i < n
        invariant
            n == line@.len(),
            want == rolled(line@),
            i <= n,
            i == 0 || line@[i - 1] == Tile::Wall || i == n || line@[i as int] == Tile::Wall,
            out@ == want.subrange(0, i as int),
        decreases n - i,
    {
        if line[i] == Tile::Wall {
            out.push(Tile::Wall);
            i = i + 1;
            assert(out@ =~= want.subrange(0, i as int));
        } else {
            let mut e = i;
            let mut c: usize = 0;
            while e < n && line[e] != Tile::Wall
                invariant
                    i <= e <= n,
                    n == line@.len(),
                    forall|k: int| i <= k < e ==> line@[k] != Tile::Wall,
                    c == rocks_in(line@, i as int, e as int),
                    c <= e - i,
                decreases n - e,
            {
                if line[e] == Tile::Rock {
                    c = c + 1;
                }
                e = e + 1;
            }
            proof {
                assert forall|j: int| i <= j < e implies seg_start(line@, j) == i && seg_end(
                    line@,
                    j,
                ) == e by {
                    lemma_seg_start(line@, i as int, j);
                    lemma_seg_end(line@, e as int, j);
                }
            }
            let s = i;
            while i < e
                invariant
                    s <= i <= e <= n,
                    n == line@.len(),
                    want == rolled(line@),
                    c == rocks_in(line@, s as int, e as int),
                    forall|k: int| s <= k < e ==> line@[k] != Tile::Wall,
                    forall|j: int| s <= j < e ==> seg_start(line@, j) == s && seg_end(line@, j) == e,
                    out@ == want.subrange(0, i as int),
                decreases e - i,
            {
                if i - s < c {
                    out.push(Tile::Rock);
                } else {
                    out.push(Tile::Empty);
                }
                i = i + 1;
                assert(out@ =~= want.subrange(0, i as int));
            }
        }
    }
    assert(want.subrange(0, n as int) =~= want);
    out
}

#[derive(Debug, PartialEq, Eq, Clone, Copy, Structural)]
pub enum Direction {
    North,
    South,
    East,
    West,
}

/// Every row has `w` tiles, and there is at least one row.
pub open spec fn rectangular(p: Seq<Seq<Tile>>, w: int) -> bool {
    &&& p.len() >= 1
    &&& forall|y: int| 0 <= y < p.len() ==> #[trigger] p[y].len() == w
}

/// The line that rocks roll along, read in the direction they roll: a column
/// from the top (north) or the bottom (south), a row from the left (west) or
/// the right (east).
pub open spec fn line_of(p: Seq<Seq<Tile>>, w: int, d: Direction, l: int) -> Seq<Tile> {
    let h = p.len() as int;
    match d {
        Direction::North => Seq::new(h as nat, |k: int| p[k][l]),
        Direction::South => Seq::new(h as nat, |k: int| p[h - 1 - k][l]),
        Direction::West => Seq::new(w as nat, |k: int| p[l][k]),
        Direction::East => Seq::new(w as nat, |k: int| p[l][w - 1 - k]),
    }
}

/// The platform after tilting it toward `d`.
pub open spec fn tilted(p: Seq<Seq<Tile>>, w: int, d: Direction) -> Seq<Seq<Tile>> {
    let h = p.len() as int;
    Seq::new(
        h as nat,
        |y: int|
            Seq::new(
                w as nat,
                |x: int|
                    match d {
                        Direction::North => rolled(line_of(p, w, d, x))[y],
                        Direction::South => rolled(line_of(p, w, d, x))[h - 1 - y],
                        Direction::West => rolled(line_of(p, w, d, y))[x],
                        Direction::East => rolled(line_of(p, w, d, y))[w - 1 - x],
                    },
            ),
    )
}

fn line_at(p: &Vec<Vec<Tile>>, w: usize, d: Direction, l: usize) -> (r: Vec<Tile>)
    requires
        rectangular(grid_view(p@), w as int),
        match d {
            Direction::North | Direction::South => l < w,
            _ => l < p@.len(),
        },
    ensures
        r@ == line_of(grid_view(p@), w as int, d, l as int),
{
    let ghost g = grid_view(p@);
    let h = p.len();
    let n = match d {
        Direction::North | Direction::South => h,
        _ => w,
    };
    let mut r: Vec<Tile> = Vec::new();
    let mut k: usize = 0;
    while k < n
        invariant
            g == grid_view(p@),
            g.len() == h,
            h == p@.len(),
            rectangular(g, w as int),
            n == (match d {
                Direction::North | Direction::South => h,
                _ => w,
            }),
            match d {
                Direction::North | Direction::South => l < w,
                _ => l < h,
            },
            k <= n,
            r@ == line_of(g, w as int, d, l as int).subrange(0, k as int),
        decreases n - k,
    {
        let t = match d {
            Direction::North => {
                assert(g[k as int] == p@[k as int]@);
                p[k][l]
            },
            Direction::South => {
                assert(g[h - 1 - k] == p@[h - 1 - k]@);
                p[h - 1 - k][l]
            },
            Direction::West => {
                assert(g[l as int] == p@[l as int]@);
                p[l][k]
            },
            Direction::East => {
                assert(g[l as int] == p@[l as int]@);
                p[l][w - 1 - k]
            },
        };
        r.push(t);
        k = k + 1;
        assert(r@ =~= line_of(g, w as int, d, l as int).subrange(0, k as int));
    }
    assert(line_of(g, w as int, d, l as int).len() == n);
    assert(r@ =~= line_of(g, w as int, d, l as int));
    r
}

/// The platform after tilting it toward `direction`: every round rock rolls
/// until a wall, another rock or the edge stops it. All rows must have the
/// width of the first, and there must be one.
pub fn tilt(platform: &Vec<Vec<Tile>>, direction: Direction) -> (r: Vec<Vec<Tile>>)
    requires
        rectangular(grid_view(platform@), grid_view(platform@)[0].len() as int),
    ensures
        grid_view(r@) == tilted(
            grid_view(platform@),
            grid_view(platform@)[0].len() as int,
            direction,
        ),
{
    let ghost g = grid_view(platform@);
    let h = platform.len();
    let w = platform[0].len();
    assert(g[0] == platform@[0]@);
    let vertical = direction == Direction::North || direction == Direction::South;
    let nl = if vertical {
        w
    } else {
        h
    };
    let mut rolled_lines: Vec<Vec<Tile>> = Vec::new();
    let mut l: usize = 0;
    while l < nl
        invariant
            g == grid_view(platform@),
            g.len() == h,
            h == platform@.len(),
            rectangular(g, w as int),
            vertical == (direction == Direction::North || direction == Direction::South),
            nl == (if vertical {
                w
            } else {
                h
            }),
            l <= nl,
            rolled_lines@.len() == l,
            forall|j: int|
                0 <= j < l ==> (#[trigger] rolled_lines@[j])@ == rolled(
                    line_of(g, w as int, direction, j),
                ),
        decreases nl - l,
    {
        let line = line_at(platform, w, direction, l);
        let rl = roll_line(&line);
        rolled_lines.push(rl);
        l = l + 1;
    }
    let ghost want = tilted(g, w as int, direction);
    let mut out: Vec<Vec<Tile>> = Vec::new();
    let mut y: usize = 0;
    while y < h
        invariant
            g == grid_view(platform@),
            g.len() == h,
            rectangular(g, w as int),
            want == tilted(g, w as int, direction),
            vertical == (direction == Direction::North || direction == Direction::South),
            rolled_lines@.len() == (if vertical {
                w
            } else {
                h
            }),
            forall|j: int|
                0 <= j < rolled_lines@.len() ==> (#[trigger] rolled_lines@[j])@ == rolled(
                    line_of(g, w as int, direction, j),
                ),
            y <= h,
            out@.len() == y,
            forall|j: int| 0 <= j < y ==> (#[trigger] out@[j])@ == want[j],
        decreases h - y,
    {
        let mut row: Vec<Tile> = Vec::new();
        let mut x: usize = 0;
        while x < w
            invariant
                g == grid_view(platform@),
                g.len() == h,
                rectangular(g, w as int),
                want == tilted(g, w as int, direction),
                vertical == (direction == Direction::North || direction == Direction::South),
                rolled_lines@.len() == (if vertical {
                    w
                } else {
                    h
                }),
                forall|j: int|
                    0 <= j < rolled_lines@.len() ==> (#[trigger] rolled_lines@[j])@ == rolled(
                        line_of(g, w as int, direction, j),
                    ),
                y < h,
                x <= w,
                row@ == want[y as int].subrange(0, x as int),
            decreases w - x,
        {
            let t = match direction {
                Direction::North => rolled_lines[x][y],
                Direction::South => rolled_lines[x][h - 1 - y],
                Direction::West => rolled_lines[y][x],
                Direction::East => rolled_lines[y][w - 1 - x],
            };
            row.push(t);
            x = x + 1;
            assert(row@ =~= want[y as int].subrange(0, x as int));
        }
        assert(row@ =~= want[y as int]);
        out.push(row);
        y = y + 1;
    }
    assert(grid_view(out@) =~= want);
    out
}


proof fn lemma_tilted_shape(p: Seq<Seq<Tile>>, w: int, d: Direction)
    requires
        rectangular(p, w),
        w >= 0,
    ensures
        rectangular(tilted(p, w, d), w),
        tilted(p, w, d).len() == p.len(),
        tilted(p, w, d)[0].len() == w,
{
}

/// One spin cycle: north, then west, then south, then east.
pub open spec fn cycle(p: Seq<Seq<Tile>>, w: int) -> Seq<Seq<Tile>> {
    tilted(
        tilted(tilted(tilted(p, w, Direction::North), w, Direction::West), w, Direction::South),
        w,
        Direction::East,
    )
}

/// The platform after `n` spin cycles.
pub open spec fn cycled(p: Seq<Seq<Tile>>, w: int, n: nat) -> Seq<Seq<Tile>>
    decreases n,
{
    if n == 0 {
        p
    } else {
        cycle(cycled(p, w, (n - 1) as nat), w)
    }
}

/// Tilts the platform north, west, south and east in turn.
pub fn tilt_one_cycle(platform: &Vec<Vec<Tile>>) -> (r: Vec<Vec<Tile>>)
    requires
        rectangular(grid_view(platform@), grid_view(platform@)[0].len() as int),
    ensures
        grid_view(r@) == cycle(grid_view(platform@), grid_view(platform@)[0].len() as int),
        rectangular(grid_view(r@), grid_view(platform@)[0].len() as int),
        r@.len() == platform@.len(),
{
    let ghost g = grid_view(platform@);
    let ghost w = g[0].len() as int;
    let a = tilt(platform, Direction::North);
    proof {
        lemma_tilted_shape(g, w, Direction::North);
    }
    let b = tilt(&a, Direction::West);
    proof {
        lemma_tilted_shape(grid_view(a@), w, Direction::West);
    }
    let c = tilt(&b, Direction::South);
    proof {
        lemma_tilted_shape(grid_view(b@), w, Direction::South);
    }
    let r = tilt(&c, Direction::East);
    proof {
        lemma_tilted_shape(grid_view(c@), w, Direction::East);
    }
    r
}

proof fn lemma_cycled_shape(p: Seq<Seq<Tile>>, w: int, n: nat)
    requires
        rectangular(p, w),
        w >= 0,
    ensures
        rectangular(cycled(p, w, n), w),
        cycled(p, w, n).len() == p.len(),
    decreases n,
{
    if n > 0 {
        let q = cycled(p, w, (n - 1) as nat);
        lemma_cycled_shape(p, w, (n - 1) as nat);
        lemma_tilted_shape(q, w, Direction::North);
        let q1 = tilted(q, w, Direction::North);
        lemma_tilted_shape(q1, w, Direction::West);
        let q2 = tilted(q1, w, Direction::West);
        lemma_tilted_shape(q2, w, Direction::South);
        let q3 = tilted(q2, w, Direction::South);
        lemma_tilted_shape(q3, w, Direction::East);
    }
}

/// Once two cycle counts give the same platform, so do counts that exceed
/// them equally.
proof fn lemma_shift(p: Seq<Seq<Tile>>, w: int, a: nat, b: nat, m: nat)
    requires
        cycled(p, w, a) == cycled(p, w, b),
    ensures
        cycled(p, w, a + m) == cycled(p, w, b + m),
    decreases m,
{
    if m > 0 {
        lemma_shift(p, w, a, b, (m - 1) as nat);
        assert(cycled(p, w, a + m) == cycle(cycled(p, w, (a + m - 1) as nat), w));
        assert(cycled(p, w, b + m) == cycle(cycled(p, w, (b + m - 1) as nat), w));
    }
}

/// After a repeat at counts `j < i`, the platforms repeat with period `i - j`.
proof fn lemma_periodic(p: Seq<Seq<Tile>>, w: int, j: nat, i: nat, n: nat)
    requires
        j < i,
        j <= n,
        cycled(p, w, j) == cycled(p, w, i),
    ensures
        cycled(p, w, n) == cycled(p, w, (j + (n - j) % ((i - j) as int)) as nat),
    decreases n,
{
    let per = (i - j) as int;
    if n < i {
        vstd::arithmetic::div_mod::lemma_small_mod((n - j) as nat, per as nat);
    } else {
        let m = (n - i) as nat;
        lemma_shift(p, w, i, j, m);
        assert(j + m == n - per);
        lemma_periodic(p, w, j, i, (n - per) as nat);
        vstd::arithmetic::div_mod::lemma_mod_sub_multiples_vanish((n - j) as int, per);
        assert((n - per - j) % per == (n - j) % per) by {
            vstd::arithmetic::div_mod::lemma_mod_sub_multiples_vanish((n - j) as int, per);
        }
    }
}

fn same_platform(a: &Vec<Vec<Tile>>, b: &Vec<Vec<Tile>>) -> (r: bool)
    ensures
        r == (grid_view(a@) == grid_view(b@)),
{
    if a.len() != b.len() {
        assert(grid_view(a@).len() != grid_view(b@).len());
        return false;
    }
    let mut y: usize = 0;
    while y < a.len()
        invariant
            y <= a@.len(),
            a@.len() == b@.len(),
            forall|j: int| 0 <= j < y ==> a@[j]@ == b@[j]@,
        decreases a@.len() - y,
    {
        let ra = &a[y];
        let rb = &b[y];
        if ra.len() != rb.len() {
            assert(grid_view(a@)[y as int] != grid_view(b@)[y as int]);
            return false;
        }
        let mut x: usize = 0;
        while x < ra.len()
            invariant
                y < a@.len(),
                a@.len() == b@.len(),
                ra@ == a@[y as int]@,
                rb@ == b@[y as int]@,
                x <= ra@.len(),
                ra@.len() == rb@.len(),
                forall|i: int| 0 <= i < x ==> ra@[i] == rb@[i],
            decreases ra@.len() - x,
        {
            if ra[x] != rb[x] {
                assert(grid_view(a@)[y as int][x as int] != grid_view(b@)[y as int][x as int]);
                return false;
            }
            x = x + 1;
        }
        assert(ra@ =~= rb@);
        y = y + 1;
    }
    assert(grid_view(a@) =~= grid_view(b@));
    true
}

fn copy_platform(a: &Vec<Vec<Tile>>) -> (r: Vec<Vec<Tile>>)
    ensures
        grid_view(r@) == grid_view(a@),
        r@.len() == a@.len(),
{
    let mut r: Vec<Vec<Tile>> = Vec::new();
    let mut y: usize = 0;
    while y < a.len()
        invariant
            y <= a@.len(),
            r@.len() == y,
            forall|j: int| 0 <= j < y ==> r@[j]@ == a@[j]@,
        decreases a@.len() - y,
    {
        let mut row: Vec<Tile> = Vec::new();
        let mut x: usize = 0;
        while x < a[y].len()
            invariant
                y < a@.len(),
                x <= a@[y as int]@.len(),
                row@ == a@[y as int]@.subrange(0, x as int),
            decreases a@[y as int]@.len() - x,
        {
            row.push(a[y][x]);
            x = x + 1;
            assert(row@ =~= a@[y as int]@.subrange(0, x as int));
        }
        assert(row@ =~= a@[y as int]@);
        r.push(row);
        y = y + 1;
    }
    assert(grid_view(r@) =~= grid_view(a@));
    r
}

/// Whether every row has the width of the first, and there is one.
fn is_rectangular(p: &Vec<Vec<Tile>>) -> (r: bool)
    ensures
        r == (p@.len() >= 1 && rectangular(grid_view(p@), grid_view(p@)[0].len() as int)),
{
    if p.len() == 0 {
        return false;
    }
    let w = p[0].len();
    let mut y: usize = 0;
    while y < p.len()
        invariant
            y <= p@.len(),
            p@.len() >= 1,
            w == p@[0]@.len(),
            forall|j: int| 0 <= j < y ==> p@[j]@.len() == w,
        decreases p@.len() - y,
    {
        if p[y].len() != w {
            assert(grid_view(p@)[y as int].len() != grid_view(p@)[0].len());
            return false;
        }
        y = y + 1;
    }
    assert(forall|j: int| 0 <= j < p@.len() ==> #[trigger] grid_view(p@)[j] == p@[j]@);
    true
}

/// The load on the north beams once the platform is tilted north; `None` if
/// the text is no rectangular platform or the load exceeds the word size.
pub fn solve_1(input: &str) -> (r: Option<usize>)
    ensures
        r matches Some(v) ==> exists|p: Seq<Seq<Tile>>|
            #[trigger] platform_text(lines(input.spec_bytes()), p) && rectangular(
                p,
                p[0].len() as int,
            ) && v == load(
                tilted(p, p[0].len() as int, Direction::North),
                p.len() as int,
            ),
{
    let p = match parse_into_platform(input) {
        Some(p) => p,
        None => {
            return None;
        },
    };
    if !is_rectangular(&p) {
        return None;
    }
    let t = tilt(&p, Direction::North);
    let r = get_total_load(&t);
    proof {
        let g = grid_view(p@);
        lemma_tilted_shape(g, g[0].len() as int, Direction::North);
        assert(t@.len() == grid_view(t@).len());
    }
    r
}

/// How many spin cycles the second part asks for.
pub const SPIN_CYCLES: usize = 1000000000;

/// The load on the north beams after a billion spin cycles; the cycles are
/// run until a platform repeats, and the rest is skipped by the period found.
/// `None` if the text is no rectangular platform or the load exceeds the word
/// size.
pub fn solve_2(input: &str) -> (r: Option<usize>)
    ensures
        r matches Some(v) ==> exists|p: Seq<Seq<Tile>>|
            #[trigger] platform_text(lines(input.spec_bytes()), p) && rectangular(
                p,
                p[0].len() as int,
            ) && v == load(
                cycled(p, p[0].len() as int, SPIN_CYCLES as nat),
                p.len() as int,
            ),
{
    let p = match parse_into_platform(input) {
        Some(p) => p,
        None => {
            return None;
        },
    };
    if !is_rectangular(&p) {
        return None;
    }
    let ghost g = grid_view(p@);
    let ghost w = g[0].len() as int;
    let mut history: Vec<Vec<Vec<Tile>>> = Vec::new();
    history.push(copy_platform(&p));
    let mut cur = p;
    let mut i: usize = 0;
    while i < SPIN_CYCLES
        invariant
            g.len() >= 1,
            rectangular(g, w),
            platform_text(lines(input.spec_bytes()), g),
            w == g[0].len(),
            i <= SPIN_CYCLES,
            history@.len() == i + 1,
            forall|j: int|
                0 <= j <= i ==> grid_view((#[trigger] history@[j])@) == cycled(g, w, j as nat),
            grid_view(cur@) == cycled(g, w, i as nat),
            cur@.len() == g.len(),
        decreases SPIN_CYCLES - i,
    {
        proof {
            lemma_cycled_shape(g, w, i as nat);
        }
        cur = tilt_one_cycle(&cur);
        i = i + 1;
        let mut j: usize = 0;
        while j < history.len()
            invariant
                j <= history@.len(),
                history@.len() == i,
                1 <= i <= SPIN_CYCLES,
                forall|k: int|
                    0 <= k < i ==> grid_view((#[trigger] history@[k])@) == cycled(g, w, k as nat),
                grid_view(cur@) == cycled(g, w, i as nat),
                g.len() >= 1,
                rectangular(g, w),
                platform_text(lines(input.spec_bytes()), g),
                w == g[0].len(),
            decreases history@.len() - j,
        {
            if same_platform(&history[j], &cur) {
                let target = j + (SPIN_CYCLES - j) % (i - j);
                proof {
                    lemma_periodic(g, w, j as nat, i as nat, SPIN_CYCLES as nat);
                    lemma_cycled_shape(g, w, target as nat);
                    vstd::arithmetic::div_mod::lemma_mod_bound(
                        (SPIN_CYCLES - j) as int,
                        (i - j) as int,
                    );
                }
                let r = get_total_load(&history[target]);
                proof {
                    assert(history@[target as int]@.len() == grid_view(history@[target as int]@).len());
                }
                return r;
            }
            j = j + 1;
        }
        history.push(copy_platform(&cur));
    }
    proof {
        lemma_cycled_shape(g, w, i as nat);
    }
    get_total_load(&cur)
}

} // verus!
