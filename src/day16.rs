//! Beams in a contraption: a beam moves cell by cell, is turned by mirrors
//! and split by splitters; a cell is energized when a beam passes it.
use vstd::prelude::*;
use vstd::string::StringSliceAdditionalSpecFns;
use crate::text::{lines, split_lines, views};

verus! {

#[derive(Debug, PartialEq, Eq, Clone, Copy, Structural)]
pub enum Tile {
    Empty,
    MirrorRight,
    MirrorLeft,
    SplitterVertical,
    SplitterHorizontal,
}

#[derive(Debug, PartialEq, Eq, Clone, Copy, Structural)]
pub enum Direction {
    Up,
    Down,
    Left,
    Right,
}

pub open spec fn tile_of(b: u8) -> Option<Tile> {
    if b == 0x2e {
        Some(Tile::Empty)
    } else if b == 0x2f {
        Some(Tile::MirrorRight)
    } else if b == 0x5c {
        Some(Tile::MirrorLeft)
    } else if b == 0x7c {
        Some(Tile::SplitterVertical)
    } else if b == 0x2d {
        Some(Tile::SplitterHorizontal)
    } else {
        None
    }
}

pub open spec fn grid_view(g: Seq<Vec<Tile>>) -> Seq<Seq<Tile>> {
    g.map_values(|r: Vec<Tile>| r@)
}

/// Each line's bytes read as tiles: `.` empty, `/` and `\` mirrors, `|` and
/// `-` splitters.
pub open spec fn facility_text(ls: Seq<Seq<u8>>, g: Seq<Seq<Tile>>) -> bool {
    &&& g.len() == ls.len()
    &&& forall|y: int|
        0 <= y < ls.len() ==> (#[trigger] g[y]).len() == ls[y].len() && forall|x: int|
            0 <= x < ls[y].len() ==> tile_of(ls[y][x]) == Some(#[trigger] g[y][x])
}

/// Reads a contraption, one row per line; `None` on any other byte.
pub fn parse(input: &str) -> (r: Option<Vec<Vec<Tile>>>)
    ensures
        r matches Some(g) ==> facility_text(lines(input.spec_bytes()), grid_view(g@)),
{
    let ls = split_lines(input.as_bytes());
    let ghost ln = lines(input.spec_bytes());
    assert(views(ls@).len() == ls@.len());
    let mut g: Vec<Vec<Tile>> = Vec::new();
    let mut y: usize = 0;
    while y < ls.len()
        invariant
            views(ls@) == ln,
            ln == lines(input.spec_bytes()),
            ls@.len() == ln.len(),
            y <= ls@.len(),
            g@.len() == y,
            forall|j: int|
                0 <= j < y ==> (#[trigger] grid_view(g@)[j]).len() == ln[j].len() && forall|x: int|
                    0 <= x < ln[j].len() ==> tile_of(ln[j][x]) == Some(
                        #[trigger] grid_view(g@)[j][x],
                    ),
        decreases ls@.len() - y,
    {
        let line = &ls[y];
        assert(line@ == ln[y as int]);
        let mut row: Vec<Tile> = Vec::new();
        let mut x: usize = 0;
        while x < line.len()
            invariant
                x <= line@.len(),
                row@.len() == x,
                forall|i: int| 0 <= i < x ==> tile_of(line@[i]) == Some(#[trigger] row@[i]),
            decreases line@.len() - x,
        {
            let b = line[x];
            let t = if b == 0x2e {
                Tile::Empty
            } else if b == 0x2f {
                Tile::MirrorRight
            } else if b == 0x5c {
                Tile::MirrorLeft
            } else if b == 0x7c {
                Tile::SplitterVertical
            } else if b == 0x2d {
                Tile::SplitterHorizontal
            } else {
                return None;
            };
            row.push(t);
            x = x + 1;
        }
        let ghost before = g@;
        let ghost rv = row@;
        g.push(row);
        assert forall|j: int| 0 <= j <= y implies (#[trigger] grid_view(g@)[j]).len() == ln[j].len()
            && forall|x: int|
            0 <= x < ln[j].len() ==> tile_of(ln[j][x]) == Some(#[trigger] grid_view(g@)[j][x]) by {
            if j < y {
                assert(grid_view(g@)[j] == grid_view(before)[j]);
                assert forall|x: int| 0 <= x < ln[j].len() implies tile_of(ln[j][x]) == Some(
                    #[trigger] grid_view(g@)[j][x],
                ) by {
                    assert(tile_of(ln[j][x]) == Some(grid_view(before)[j][x]));
                }
            } else {
                assert(grid_view(g@)[j] == rv);
                assert forall|x: int| 0 <= x < ln[j].len() implies tile_of(ln[j][x]) == Some(
                    #[trigger] grid_view(g@)[j][x],
                ) by {
                    assert(tile_of(line@[x]) == Some(rv[x]));
                }
            }
        }
        y = y + 1;
    }
    Some(g)
}

/// The directions a beam moving `d` leaves a tile `t` with, in order.
pub open spec fn turn(t: Tile, d: Direction) -> Seq<Direction> {
    match t {
        Tile::Empty => seq![d],
        Tile::MirrorRight => match d {
            Direction::Up => seq![Direction::Right],
            Direction::Down => seq![Direction::Left],
            Direction::Left => seq![Direction::Down],
            Direction::Right => seq![Direction::Up],
        },
        Tile::MirrorLeft => match d {
            Direction::Up => seq![Direction::Left],
            Direction::Down => seq![Direction::Right],
            Direction::Left => seq![Direction::Up],
            Direction::Right => seq![Direction::Down],
        },
        Tile::SplitterVertical => match d {
            Direction::Left | Direction::Right => seq![Direction::Down, Direction::Up],
            _ => seq![d],
        },
        Tile::SplitterHorizontal => match d {
            Direction::Up | Direction::Down => seq![Direction::Right, Direction::Left],
            _ => seq![d],
        },
    }
}

pub open spec fn dx(d: Direction) -> int {
    match d {
        Direction::Left => -1,
        Direction::Right => 1,
        _ => 0,
    }
}

pub open spec fn dy(d: Direction) -> int {
    match d {
        Direction::Up => -1,
        Direction::Down => 1,
        _ => 0,
    }
}

pub open spec fn inside(g: Seq<Seq<Tile>>, x: int, y: int) -> bool {
    0 <= y < g.len() && 0 <= x < g[y].len()
}

/// The states a beam at (`x`, `y`) moving `d` is in after one more step: in
/// the next cell, leaving it in each direction its tile allows; none when the
/// next cell is off the contraption.
pub open spec fn successors(g: Seq<Seq<Tile>>, x: int, y: int, d: Direction) -> Seq<(int, int, Direction)> {
    let nx = x + dx(d);
    let ny = y + dy(d);
    if inside(g, nx, ny) {
        turn(g[ny][nx], d).map_values(|e: Direction| (nx, ny, e))
    } else {
        Seq::empty()
    }
}

fn turn_exec(t: Tile, d: Direction) -> (r: Vec<Direction>)
    ensures
        r@ == turn(t, d),
{
    let r = match t {
        Tile::Empty => vec![d],
        Tile::MirrorRight => match d {
            Direction::Up => vec![Direction::Right],
            Direction::Down => vec![Direction::Left],
            Direction::Left => vec![Direction::Down],
            Direction::Right => vec![Direction::Up],
        },
        Tile::MirrorLeft => match d {
            Direction::Up => vec![Direction::Left],
            Direction::Down => vec![Direction::Right],
            Direction::Left => vec![Direction::Up],
            Direction::Right => vec![Direction::Down],
        },
        Tile::SplitterVertical => match d {
            Direction::Left | Direction::Right => vec![Direction::Down, Direction::Up],
            _ => vec![d],
        },
        Tile::SplitterHorizontal => match d {
            Direction::Up | Direction::Down => vec![Direction::Right, Direction::Left],
            _ => vec![d],
        },
    };
    assert(r@ =~= turn(t, d));
    r
}

/// The contraption is small enough for `i32` coordinates.
pub open spec fn fits_i32(g: Seq<Seq<Tile>>) -> bool {
    &&& g.len() <= i32::MAX
    &&& forall|y: int| 0 <= y < g.len() ==> #[trigger] g[y].len() <= i32::MAX
}

pub open spec fn as_states(r: Seq<(i32, i32, Direction)>) -> Seq<(int, int, Direction)> {
    r.map_values(|s: (i32, i32, Direction)| (s.0 as int, s.1 as int, s.2))
}

/// The states after one step of a beam at (`x`, `y`) moving `d`.
pub fn next_for_pos(facility: &Vec<Vec<Tile>>, current_pos: (i32, i32, Direction)) -> (r: Vec<(i32, i32, Direction)>)
    requires
        fits_i32(grid_view(facility@)),
    ensures
        as_states(r@) == successors(
            grid_view(facility@),
            current_pos.0 as int,
            current_pos.1 as int,
            current_pos.2,
        ),
{
    let ghost g = grid_view(facility@);
    let (x, y, d) = current_pos;
    let nx: i64 = x as i64 + match d {
        Direction::Left => -1,
        Direction::Right => 1,
        _ => 0,
    };
    let ny: i64 = y as i64 + match d {
        Direction::Up => -1,
        Direction::Down => 1,
        _ => 0,
    };
    assert(g.len() == facility@.len());
    if ny < 0 || ny >= facility.len() as i64 {
        let r: Vec<(i32, i32, Direction)> = Vec::new();
        assert(as_states(r@) =~= Seq::empty());
        return r;
    }
    let row = &facility[ny as usize];
    assert(g[ny as int] == row@);
    if nx < 0 || nx >= row.len() as i64 {
        let r: Vec<(i32, i32, Direction)> = Vec::new();
        assert(as_states(r@) =~= Seq::empty());
        return r;
    }
    let es = turn_exec(row[nx as usize], d);
    let mut r: Vec<(i32, i32, Direction)> = Vec::new();
    let mut i: usize = 0;
    while i < es.len()
        invariant
            i <= es@.len(),
            0 <= nx <= i32::MAX,
            0 <= ny <= i32::MAX,
            as_states(r@) == es@.subrange(0, i as int).map_values(
                |e: Direction| (nx as int, ny as int, e),
            ),
        decreases es@.len() - i,
    {
        let ghost prev = r@;
        r.push((nx as i32, ny as i32, es[i]));
        assert(as_states(r@) =~= as_states(prev).push((nx as int, ny as int, es@[i as int])));
        assert(es@.subrange(0, i + 1).map_values(|e: Direction| (nx as int, ny as int, e))
            =~= es@.subrange(0, i as int).map_values(|e: Direction| (nx as int, ny as int, e)).push(
            (nx as int, ny as int, es@[i as int]),
        ));
        i = i + 1;
    }
    assert(es@.subrange(0, es@.len() as int) =~= es@);
    r
}


pub open spec fn dir_of(k: int) -> Direction {
    if k == 0 {
        Direction::Up
    } else if k == 1 {
        Direction::Down
    } else if k == 2 {
        Direction::Left
    } else {
        Direction::Right
    }
}

/// State (`x`, `y`, moving `dir_of(k)`) is marked in `cur`.
pub open spec fn lit(cur: Seq<Seq<Seq<bool>>>, x: int, y: int, k: int) -> bool {
    0 <= y < cur.len() && 0 <= x < cur[y].len() && 0 <= k < cur[y][x].len() && cur[y][x][k]
}

/// A beam moving `dir_of(k)`, in the start state (if any) or a marked one,
/// steps into cell (`x`, `y`) and may leave it moving `e`.
pub open spec fn from_dir(
    g: Seq<Seq<Tile>>,
    start: Option<(int, int, Direction)>,
    cur: Seq<Seq<Seq<bool>>>,
    x: int,
    y: int,
    e: Direction,
    k: int,
) -> bool {
    let d = dir_of(k);
    let px = x - dx(d);
    let py = y - dy(d);
    turn(g[y][x], d).contains(e) && (start == Some((px, py, d)) || lit(cur, px, py, k))
}

/// The states one step after the marked ones (and the start, if any), with
/// the marked states themselves kept when `keep`.
pub open spec fn stepped(
    g: Seq<Seq<Tile>>,
    start: Option<(int, int, Direction)>,
    keep: bool,
    cur: Seq<Seq<Seq<bool>>>,
) -> Seq<Seq<Seq<bool>>> {
    Seq::new(
        g.len(),
        |y: int|
            Seq::new(
                g[y].len(),
                |x: int|
                    Seq::new(
                        4,
                        |k: int|
                            (keep && lit(cur, x, y, k)) || from_dir(g, start, cur, x, y, dir_of(k), 0)
                                || from_dir(g, start, cur, x, y, dir_of(k), 1) || from_dir(
                                g,
                                start,
                                cur,
                                x,
                                y,
                                dir_of(k),
                                2,
                            ) || from_dir(g, start, cur, x, y, dir_of(k), 3),
                    ),
            ),
    )
}

/// The marked states after one more step: those marked already, and those a
/// marked state or the start leads to.
pub open spec fn spread(g: Seq<Seq<Tile>>, start: (int, int, Direction), cur: Seq<Seq<Seq<bool>>>) -> Seq<
    Seq<Seq<bool>>,
> {
    stepped(g, Some(start), true, cur)
}

/// The states that the marked beams are in after one more step.
pub open spec fn arrivals(g: Seq<Seq<Tile>>, cur: Seq<Seq<Seq<bool>>>) -> Seq<Seq<Seq<bool>>> {
    stepped(g, None, false, cur)
}

pub open spec fn start_view(s: Option<(i32, i32, Direction)>) -> Option<(int, int, Direction)> {
    match s {
        Some((x, y, d)) => Some((x as int, y as int, d)),
        None => None,
    }
}

/// The states of the contraption that a beam from `start` is in within `n`
/// steps.
pub open spec fn beams(g: Seq<Seq<Tile>>, start: (int, int, Direction), n: nat) -> Seq<Seq<Seq<bool>>>
    decreases n,
{
    if n == 0 {
        Seq::new(
            g.len(),
            |y: int| Seq::new(g[y].len(), |x: int| Seq::new(4, |k: int| start == (x, y, dir_of(k)))),
        )
    } else {
        spread(g, start, beams(g, start, (n - 1) as nat))
    }
}

pub open spec fn marks_view(b: Seq<Vec<Vec<bool>>>) -> Seq<Seq<Seq<bool>>> {
    b.map_values(|r: Vec<Vec<bool>>| r@.map_values(|c: Vec<bool>| c@))
}

fn dir_exec(k: usize) -> (d: Direction)
    ensures
        d == dir_of(k as int),
{
    if k == 0 {
        Direction::Up
    } else if k == 1 {
        Direction::Down
    } else if k == 2 {
        Direction::Left
    } else {
        Direction::Right
    }
}

fn lit_exec(cur: &Vec<Vec<Vec<bool>>>, x: usize, y: usize, k: usize) -> (r: bool)
    ensures
        r == lit(marks_view(cur@), x as int, y as int, k as int),
{
    let ghost m = marks_view(cur@);
    assert(m.len() == cur@.len());
    if y >= cur.len() {
        return false;
    }
    let row = &cur[y];
    assert(m[y as int] == row@.map_values(|c: Vec<bool>| c@));
    if x >= row.len() {
        return false;
    }
    let cell = &row[x];
    assert(m[y as int][x as int] == cell@);
    if k >= cell.len() {
        return false;
    }
    cell[k]
}

fn from_dir_exec(
    facility: &Vec<Vec<Tile>>,
    start: Option<(i32, i32, Direction)>,
    cur: &Vec<Vec<Vec<bool>>>,
    x: usize,
    y: usize,
    e: Direction,
    k: usize,
) -> (r: bool)
    requires
        y < facility@.len(),
        x < facility@[y as int]@.len(),
        k < 4,
        fits_i32(grid_view(facility@)),
    ensures
        r == from_dir(
            grid_view(facility@),
            start_view(start),
            marks_view(cur@),
            x as int,
            y as int,
            e,
            k as int,
        ),
{
    let ghost g = grid_view(facility@);
    assert(g[y as int] == facility@[y as int]@);
    assert(g[y as int].len() <= i32::MAX);
    let d = dir_exec(k);
    let ts = turn_exec(facility[y][x], d);
    let mut allowed = false;
    let mut i: usize = 0;
    while i < ts.len()
        invariant
            i <= ts@.len(),
            allowed == (exists|j: int| 0 <= j < i && ts@[j] == e),
        decreases ts@.len() - i,
    {
        if ts[i] == e {
            allowed = true;
        }
        i = i + 1;
    }
    assert(allowed == ts@.contains(e));
    if !allowed {
        return false;
    }
    let px: i64 = x as i64 - match d {
        Direction::Left => -1,
        Direction::Right => 1,
        _ => 0,
    };
    let py: i64 = y as i64 - match d {
        Direction::Up => -1,
        Direction::Down => 1,
        _ => 0,
    };
    if let Some((sx, sy, sd)) = start {
        if sx as i64 == px && sy as i64 == py && sd == d {
            return true;
        }
    }
    if px < 0 || py < 0 {
        return false;
    }
    lit_exec(cur, px as usize, py as usize, k)
}

fn step_marks(
    facility: &Vec<Vec<Tile>>,
    start: Option<(i32, i32, Direction)>,
    keep: bool,
    cur: &Vec<Vec<Vec<bool>>>,
) -> (r: Vec<Vec<Vec<bool>>>)
    requires
        fits_i32(grid_view(facility@)),
    ensures
        marks_view(r@) == stepped(grid_view(facility@), start_view(start), keep, marks_view(cur@)),
{
    let ghost g = grid_view(facility@);
    let ghost st = start_view(start);
    let ghost want = stepped(g, st, keep, marks_view(cur@));
    let mut out: Vec<Vec<Vec<bool>>> = Vec::new();
    let mut y: usize = 0;
    while y < facility.len()
        invariant
            g == grid_view(facility@),
            g.len() == facility@.len(),
            fits_i32(g),
            st == start_view(start),
            want == stepped(g, st, keep, marks_view(cur@)),
            y <= facility@.len(),
            out@.len() == y,
            forall|j: int| 0 <= j < y ==> marks_view(out@)[j] == want[j],
        decreases facility@.len() - y,
    {
        assert(g[y as int] == facility@[y as int]@);
        let mut row: Vec<Vec<bool>> = Vec::new();
        let mut x: usize = 0;
        while x < facility[y].len()
            invariant
                g == grid_view(facility@),
                g.len() == facility@.len(),
                fits_i32(g),
                st == start_view(start),
                want == stepped(g, st, keep, marks_view(cur@)),
                y < facility@.len(),
                g[y as int] == facility@[y as int]@,
                x <= facility@[y as int]@.len(),
                row@.len() == x,
                forall|i: int| 0 <= i < x ==> (#[trigger] row@[i])@ == want[y as int][i],
            decreases facility@[y as int]@.len() - x,
        {
            let mut cell: Vec<bool> = Vec::new();
            let mut k: usize = 0;
            while k < 4
                invariant
                    g == grid_view(facility@),
                    fits_i32(g),
                    st == start_view(start),
                    want == stepped(g, st, keep, marks_view(cur@)),
                    y < facility@.len(),
                    x < facility@[y as int]@.len(),
                    g[y as int] == facility@[y as int]@,
                    k <= 4,
                    cell@ == want[y as int][x as int].subrange(0, k as int),
                decreases 4 - k,
            {
                let e = dir_exec(k);
                let v = (keep && lit_exec(cur, x, y, k)) || from_dir_exec(
                    facility,
                    start,
                    cur,
                    x,
                    y,
                    e,
                    0,
                ) || from_dir_exec(facility, start, cur, x, y, e, 1) || from_dir_exec(
                    facility,
                    start,
                    cur,
                    x,
                    y,
                    e,
                    2,
                ) || from_dir_exec(facility, start, cur, x, y, e, 3);
                cell.push(v);
                k = k + 1;
                assert(cell@ =~= want[y as int][x as int].subrange(0, k as int));
            }
            assert(cell@ =~= want[y as int][x as int]);
            row.push(cell);
            x = x + 1;
        }
        let ghost before = out@;
        out.push(row);
        assert forall|j: int| 0 <= j <= y implies marks_view(out@)[j] == want[j] by {
            if j < y {
                assert(out@[j] == before[j]);
                assert(marks_view(out@)[j] == marks_view(before)[j]);
            } else {
                assert(marks_view(out@)[j] =~= want[j]);
            }
        }
        y = y + 1;
    }
    assert(marks_view(out@) =~= want);
    out
}


/// The cells of the first `k` rows.
pub open spec fn cells(g: Seq<Seq<Tile>>, k: int) -> int
    decreases k,
{
    if k <= 0 {
        0
    } else {
        cells(g, k - 1) + g[k - 1].len()
    }
}

/// How many of the first `k` cells of row `y` hold a marked state.
pub open spec fn lit_row(b: Seq<Seq<Seq<bool>>>, y: int, k: int) -> int
    decreases k,
{
    if k <= 0 {
        0
    } else {
        lit_row(b, y, k - 1) + if lit(b, k - 1, y, 0) || lit(b, k - 1, y, 1) || lit(b, k - 1, y, 2)
            || lit(b, k - 1, y, 3) {
            1int
        } else {
            0
        }
    }
}

/// How many cells of the first `k` rows hold a marked state.
pub open spec fn lit_cells(b: Seq<Seq<Seq<bool>>>, k: int) -> int
    decreases k,
{
    if k <= 0 {
        0
    } else {
        lit_cells(b, k - 1) + lit_row(b, k - 1, b[k - 1].len() as int)
    }
}

/// The states that the marked beams are in after one more step: the union of
/// the successors of every marked state.
pub fn get_next_all(facility: &Vec<Vec<Tile>>, current_pos: &Vec<Vec<Vec<bool>>>) -> (r: Vec<
    Vec<Vec<bool>>,
>)
    requires
        fits_i32(grid_view(facility@)),
    ensures
        marks_view(r@) == arrivals(grid_view(facility@), marks_view(current_pos@)),
{
    step_marks(facility, None, false, current_pos)
}

/// The energized count for a beam from `start`: the cells it passes within
/// as many steps as the contraption has states, with the start position
/// counted once, less one.
pub open spec fn energy(g: Seq<Seq<Tile>>, start: (int, int, Direction)) -> int {
    lit_cells(beams(g, start, (4 * cells(g, g.len() as int)) as nat), g.len() as int) + (if inside(
        g,
        start.0,
        start.1,
    ) {
        0int
    } else {
        1int
    }) - 1
}

proof fn lemma_fixpoint(g: Seq<Seq<Tile>>, start: (int, int, Direction), k: nat, m: nat)
    requires
        k <= m,
        spread(g, start, beams(g, start, k)) == beams(g, start, k),
    ensures
        beams(g, start, m) == beams(g, start, k),
    decreases m,
{
    if m > k {
        lemma_fixpoint(g, start, k, (m - 1) as nat);
    }
}

fn same_marks(a: &Vec<Vec<Vec<bool>>>, b: &Vec<Vec<Vec<bool>>>) -> (r: bool)
    ensures
        r == (marks_view(a@) == marks_view(b@)),
{
    let ghost ma = marks_view(a@);
    let ghost mb = marks_view(b@);
    if a.len() != b.len() {
        assert(ma.len() != mb.len());
        return false;
    }
    let mut y: usize = 0;
    while y < a.len()
        invariant
            ma == marks_view(a@),
            mb == marks_view(b@),
            a@.len() == b@.len(),
            y <= a@.len(),
            forall|j: int| 0 <= j < y ==> ma[j] == mb[j],
        decreases a@.len() - y,
    {
        let ra = &a[y];
        let rb = &b[y];
        assert(ma[y as int] == ra@.map_values(|c: Vec<bool>| c@));
        assert(mb[y as int] == rb@.map_values(|c: Vec<bool>| c@));
        if ra.len() != rb.len() {
            assert(ma[y as int].len() != mb[y as int].len());
            return false;
        }
        let mut x: usize = 0;
        while x < ra.len()
            invariant
                ma == marks_view(a@),
                mb == marks_view(b@),
                y < a@.len(),
                a@.len() == b@.len(),
                ra@ == a@[y as int]@,
                rb@ == b@[y as int]@,
                ma[y as int] == ra@.map_values(|c: Vec<bool>| c@),
                mb[y as int] == rb@.map_values(|c: Vec<bool>| c@),
                ra@.len() == rb@.len(),
                x <= ra@.len(),
                forall|i: int| 0 <= i < x ==> ma[y as int][i] == mb[y as int][i],
            decreases ra@.len() - x,
        {
            let ca = &ra[x];
            let cb = &rb[x];
            assert(ma[y as int][x as int] == ca@);
            assert(mb[y as int][x as int] == cb@);
            if ca.len() != cb.len() {
                assert(ma[y as int][x as int].len() != mb[y as int][x as int].len());
                return false;
            }
            let mut k: usize = 0;
            while k < ca.len()
                invariant
                    ma == marks_view(a@),
                    mb == marks_view(b@),
                    y < ma.len(),
                    ma.len() == mb.len(),
                    x < ma[y as int].len(),
                    ma[y as int].len() == mb[y as int].len(),
                    ma[y as int][x as int] == ca@,
                    mb[y as int][x as int] == cb@,
                    ca@.len() == cb@.len(),
                    k <= ca@.len(),
                    forall|i: int| 0 <= i < k ==> ca@[i] == cb@[i],
                decreases ca@.len() - k,
            {
                if ca[k] != cb[k] {
                    assert(ma[y as int][x as int][k as int] != mb[y as int][x as int][k as int]);
                    assert(ma[y as int][x as int] != mb[y as int][x as int]);
                    assert(ma[y as int] != mb[y as int]);
                    return false;
                }
                k = k + 1;
            }
            assert(ca@ =~= cb@);
            x = x + 1;
        }
        assert(ma[y as int] =~= mb[y as int]);
        y = y + 1;
    }
    assert(ma =~= mb);
    true
}

proof fn lemma_lit_row_bound(b: Seq<Seq<Seq<bool>>>, y: int, k: int)
    requires
        k >= 0,
    ensures
        0 <= lit_row(b, y, k) <= k,
    decreases k,
{
    if k > 0 {
        lemma_lit_row_bound(b, y, k - 1);
    }
}

/// The lit cells of the first `k` rows are at most their cells, and no fewer
/// than those of fewer rows.
proof fn lemma_lit_cells_bound(b: Seq<Seq<Seq<bool>>>, g: Seq<Seq<Tile>>, k: int, j: int)
    requires
        0 <= k <= j <= b.len(),
        b.len() == g.len(),
        forall|y: int| 0 <= y < b.len() ==> #[trigger] b[y].len() == g[y].len(),
    ensures
        0 <= lit_cells(b, k) <= lit_cells(b, j) <= cells(g, j),
    decreases j,
{
    if j > 0 {
        if j > k {
            lemma_lit_cells_bound(b, g, k, j - 1);
        } else {
            lemma_lit_cells_bound(b, g, j - 1, j - 1);
        }
        lemma_lit_row_bound(b, j - 1, b[j - 1].len() as int);
    }
}

proof fn lemma_cells_grow(g: Seq<Seq<Tile>>, k: int, j: int)
    requires
        0 <= k <= j,
    ensures
        cells(g, k) <= cells(g, j),
    decreases j,
{
    if j > k {
        lemma_cells_grow(g, k, j - 1);
    }
}

/// What makes the energized count of a beam from `start` unavailable: more
/// states than the word size counts, or a start inside with nothing lit.
pub open spec fn energy_fails(g: Seq<Seq<Tile>>, start: (int, int, Direction)) -> bool {
    4 * cells(g, g.len() as int) > usize::MAX || (inside(g, start.0, start.1) && lit_cells(
        beams(g, start, (4 * cells(g, g.len() as int)) as nat),
        g.len() as int,
    ) == 0)
}

proof fn lemma_lit_cells_grows(b: Seq<Seq<Seq<bool>>>, k: int, j: int)
    requires
        0 <= k <= j <= b.len(),
    ensures
        lit_cells(b, k) <= lit_cells(b, j),
    decreases j,
{
    if j > k {
        lemma_lit_cells_grows(b, k, j - 1);
        lemma_lit_row_bound(b, j - 1, b[j - 1].len() as int);
    }
}

fn count_lit(b: &Vec<Vec<Vec<bool>>>) -> (r: Option<usize>)
    ensures
        r matches Some(v) ==> v == lit_cells(marks_view(b@), b@.len() as int),
        r is None ==> lit_cells(marks_view(b@), b@.len() as int) > usize::MAX,
{
    let ghost m = marks_view(b@);
    assert(m.len() == b@.len());
    let mut total: usize = 0;
    let mut y: usize = 0;
    while y < b.len()
        invariant
            m == marks_view(b@),
            m.len() == b@.len(),
            y <= b@.len(),
            total == lit_cells(m, y as int),
        decreases b@.len() - y,
    {
        assert(m[y as int] == b@[y as int]@.map_values(|c: Vec<bool>| c@));
        let mut sub: usize = 0;
        let mut x: usize = 0;
        while x < b[y].len()
            invariant
                m == marks_view(b@),
                y < b@.len(),
                m[y as int] == b@[y as int]@.map_values(|c: Vec<bool>| c@),
                x <= b@[y as int]@.len(),
                sub == lit_row(m, y as int, x as int),
                sub <= x,
            decreases b@[y as int]@.len() - x,
        {
            let v = lit_exec(b, x, y, 0) || lit_exec(b, x, y, 1) || lit_exec(b, x, y, 2) || lit_exec(
                b,
                x,
                y,
                3,
            );
            if v {
                sub = sub + 1;
            }
            x = x + 1;
        }
        assert(m[y as int].len() == b@[y as int]@.len());
        total = match total.checked_add(sub) {
            Some(t) => t,
            None => {
                proof {
                    lemma_lit_cells_grows(m, y + 1, b@.len() as int);
                }
                return None;
            },
        };
        y = y + 1;
    }
    Some(total)
}


/// The number of energized cells for a beam that starts at `entry_point`
/// moving `direction` (the start may lie outside the contraption): the cells
/// it passes, the start position counted once, less one. `None` when the
/// contraption has more states than the word size counts.
pub fn solve_1(facility: &Vec<Vec<Tile>>, entry_point: (i32, i32), direction: Direction) -> (r:
    Option<usize>)
    requires
        fits_i32(grid_view(facility@)),
    ensures
        r matches Some(v) ==> v == energy(
            grid_view(facility@),
            (entry_point.0 as int, entry_point.1 as int, direction),
        ),
        r is None ==> energy_fails(
            grid_view(facility@),
            (entry_point.0 as int, entry_point.1 as int, direction),
        ),
{
    let ghost g = grid_view(facility@);
    let start = (entry_point.0, entry_point.1, direction);
    let ghost st = (entry_point.0 as int, entry_point.1 as int, direction);
    let mut ncells: usize = 0;
    let mut y: usize = 0;
    while y < facility.len()
        invariant
            g == grid_view(facility@),
            g.len() == facility@.len(),
            y <= facility@.len(),
            ncells == cells(g, y as int),
        decreases facility@.len() - y,
    {
        assert(g[y as int] == facility@[y as int]@);
        ncells = match ncells.checked_add(facility[y].len()) {
            Some(c) => c,
            None => {
                proof {
                    lemma_cells_grow(g, y + 1, g.len() as int);
                }
                return None;
            },
        };
        y = y + 1;
    }
    let n = match ncells.checked_mul(4) {
        Some(n) => n,
        None => {
            return None;
        },
    };
    let mut cur: Vec<Vec<Vec<bool>>> = Vec::new();
    let mut y: usize = 0;
    while y < facility.len()
        invariant
            g == grid_view(facility@),
            g.len() == facility@.len(),
            fits_i32(g),
            st == (start.0 as int, start.1 as int, start.2),
            y <= facility@.len(),
            cur@.len() == y,
            forall|j: int| 0 <= j < y ==> marks_view(cur@)[j] == beams(g, st, 0)[j],
        decreases facility@.len() - y,
    {
        assert(g[y as int] == facility@[y as int]@);
        let mut row: Vec<Vec<bool>> = Vec::new();
        let mut x: usize = 0;
        while x < facility[y].len()
            invariant
                g == grid_view(facility@),
                fits_i32(g),
                g.len() == facility@.len(),
                st == (start.0 as int, start.1 as int, start.2),
                y < facility@.len(),
                g[y as int] == facility@[y as int]@,
                x <= facility@[y as int]@.len(),
                row@.len() == x,
                forall|i: int| 0 <= i < x ==> (#[trigger] row@[i])@ == beams(g, st, 0)[y as int][i],
            decreases facility@[y as int]@.len() - x,
        {
            let mut cell: Vec<bool> = Vec::new();
            let mut k: usize = 0;
            while k < 4
                invariant
                    g == grid_view(facility@),
                    fits_i32(g),
                    g.len() == facility@.len(),
                    st == (start.0 as int, start.1 as int, start.2),
                    y < facility@.len(),
                    x < facility@[y as int]@.len(),
                    g[y as int] == facility@[y as int]@,
                    k <= 4,
                    cell@ == beams(g, st, 0)[y as int][x as int].subrange(0, k as int),
                decreases 4 - k,
            {
                let d = dir_exec(k);
                assert(g[y as int].len() <= i32::MAX);
                cell.push(start.0 as i64 == x as i64 && start.1 as i64 == y as i64 && start.2 == d);
                k = k + 1;
                assert(cell@ =~= beams(g, st, 0)[y as int][x as int].subrange(0, k as int));
            }
            assert(cell@ =~= beams(g, st, 0)[y as int][x as int]);
            row.push(cell);
            x = x + 1;
        }
        let ghost before = cur@;
        cur.push(row);
        assert forall|j: int| 0 <= j <= y implies marks_view(cur@)[j] == beams(g, st, 0)[j] by {
            if j < y {
                assert(cur@[j] == before[j]);
                assert(marks_view(cur@)[j] == marks_view(before)[j]);
            } else {
                assert(marks_view(cur@)[j] =~= beams(g, st, 0)[j]);
            }
        }
        y = y + 1;
    }
    assert(marks_view(cur@) =~= beams(g, st, 0));
    let mut k: usize = 0;
    let mut done = false;
    while k < n && !done
        invariant
            g == grid_view(facility@),
            fits_i32(g),
            st == (start.0 as int, start.1 as int, start.2),
            k <= n,
            marks_view(cur@) == beams(g, st, k as nat),
            done ==> spread(g, st, beams(g, st, k as nat)) == beams(g, st, k as nat),
        decreases n - k + (if done {
            0int
        } else {
            1int
        }),
    {
        let next = step_marks(facility, Some(start), true, &cur);
        if same_marks(&next, &cur) {
            done = true;
        } else {
            cur = next;
            k = k + 1;
        }
    }
    proof {
        if done {
            lemma_fixpoint(g, st, k as nat, n as nat);
        }
        assert(n == 4 * cells(g, g.len() as int));
    }
    proof {
        assert(cur@.len() == marks_view(cur@).len());
        assert(marks_view(cur@).len() == g.len());
        assert forall|yy: int| 0 <= yy < g.len() implies #[trigger] marks_view(cur@)[yy].len()
            == g[yy].len() by {}
        lemma_lit_cells_bound(marks_view(cur@), g, 0, g.len() as int);
    }
    let count = match count_lit(&cur) {
        Some(c) => c,
        None => {
            return None;
        },
    };
    let inside_start = entry_point.1 >= 0 && (entry_point.1 as i64) < facility.len() as i64 && {
        let yy = entry_point.1 as usize;
        assert(g[yy as int] == facility@[yy as int]@);
        entry_point.0 >= 0 && (entry_point.0 as i64) < facility[yy].len() as i64
    };
    if inside_start {
        count.checked_sub(1)
    } else {
        Some(count)
    }
}


/// Entry `i` of the ones tried, for a contraption whose last column is `w1`
/// and last row `h1`: from the left into rows `0..h1`, from column `w1`
/// leftward in those rows, from the top into columns `0..w1`, and from row
/// `h1` upward in those columns.
pub open spec fn entry(w1: int, h1: int, i: int) -> (int, int, Direction) {
    if i < h1 {
        (-1, i, Direction::Right)
    } else if i < 2 * h1 {
        (w1, i - h1, Direction::Left)
    } else if i < 2 * h1 + w1 {
        (i - 2 * h1, -1, Direction::Down)
    } else {
        (i - 2 * h1 - w1, h1, Direction::Up)
    }
}

/// The largest energy over the first `k` entries, `k >= 1`.
pub open spec fn best(g: Seq<Seq<Tile>>, w1: int, h1: int, k: int) -> int
    decreases k,
{
    if k <= 1 {
        energy(g, entry(w1, h1, 0))
    } else {
        let a = best(g, w1, h1, k - 1);
        let b = energy(g, entry(w1, h1, k - 1));
        if a >= b {
            a
        } else {
            b
        }
    }
}

/// The most cells a beam entering from an edge energizes, over the entries
/// the puzzle's first answer was checked against: from the left and right
/// into all rows but the last, from the top and bottom into all columns but
/// the last, the right and bottom entries starting on the last column and
/// row. `None` when there is no such entry or a count fails.
pub fn solve_2(facility: &Vec<Vec<Tile>>) -> (r: Option<usize>)
    requires
        fits_i32(grid_view(facility@)),
    ensures
        r matches Some(v) ==> facility@.len() >= 1 && v == best(
            grid_view(facility@),
            facility@[0]@.len() - 1,
            facility@.len() - 1,
            2 * (facility@[0]@.len() - 1 + facility@.len() - 1),
        ),
        r is None ==> facility@.len() == 0 || facility@[0]@.len() == 0 || 2 * (facility@[0]@.len()
            - 1 + facility@.len() - 1) == 0 || 2 * (facility@[0]@.len() - 1 + facility@.len() - 1)
            > usize::MAX || exists|i: int|
            0 <= i < 2 * (facility@[0]@.len() - 1 + facility@.len() - 1) && #[trigger] energy_fails(
                grid_view(facility@),
                entry(facility@[0]@.len() - 1, facility@.len() - 1, i),
            ),
{
    let ghost g = grid_view(facility@);
    if facility.len() == 0 || facility[0].len() == 0 {
        return None;
    }
    assert(g[0] == facility@[0]@);
    let w1 = facility[0].len() - 1;
    let h1 = facility.len() - 1;
    assert(w1 < i32::MAX && h1 < i32::MAX);
    let total = match w1.checked_add(h1) {
        Some(t) => match t.checked_mul(2) {
            Some(t2) => t2,
            None => {
                return None;
            },
        },
        None => {
            return None;
        },
    };
    if total == 0 {
        return None;
    }
    let mut top: usize = 0;
    let mut i: usize = 0;
    while i < total
        invariant
            g == grid_view(facility@),
            fits_i32(g),
            w1 < i32::MAX,
            h1 < i32::MAX,
            w1 == facility@[0]@.len() - 1,
            h1 == facility@.len() - 1,
            total == 2 * (w1 + h1),
            i <= total,
            i > 0 ==> top == best(g, w1 as int, h1 as int, i as int),
        decreases total - i,
    {
        let (x, y, d) = if i < h1 {
            (-1i32, i as i32, Direction::Right)
        } else if i < 2 * h1 {
            (w1 as i32, (i - h1) as i32, Direction::Left)
        } else if i < 2 * h1 + w1 {
            ((i - 2 * h1) as i32, -1i32, Direction::Down)
        } else {
            ((i - 2 * h1 - w1) as i32, h1 as i32, Direction::Up)
        };
        assert((x as int, y as int, d) == entry(w1 as int, h1 as int, i as int));
        let v = match solve_1(facility, (x, y), d) {
            Some(v) => v,
            None => {
                assert(energy_fails(g, entry(w1 as int, h1 as int, i as int)));
                return None;
            },
        };
        if i == 0 || v > top {
            top = v;
        }
        i = i + 1;
    }
    Some(top)
}

} // verus!
