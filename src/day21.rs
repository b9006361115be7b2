//! Step counter: the garden plots that can be the end of a walk of exactly
//! `k` steps from the start, moving up, down, left or right and never onto a
//! rock.
use vstd::prelude::*;
use vstd::string::StringSliceAdditionalSpecFns;
use crate::text::{lines, split_lines, views};

verus! {

#[derive(Debug, PartialEq, Eq, Clone, Copy, Structural)]
pub enum Tile {
    Rock,
    Plot,
    S,
}

pub open spec fn tile_of(b: u8) -> Option<Tile> {
    if b == 0x2e {
        Some(Tile::Plot)
    } else if b == 0x23 {
        Some(Tile::Rock)
    } else if b == 0x53 {
        Some(Tile::S)
    } else {
        None
    }
}

pub open spec fn grid_view(g: Seq<Vec<Tile>>) -> Seq<Seq<Tile>> {
    g.map_values(|r: Vec<Tile>| r@)
}

/// Each line's bytes read as tiles: `.` plot, `#` rock, `S` the start.
pub open spec fn map_text(ls: Seq<Seq<u8>>, g: Seq<Seq<Tile>>) -> bool {
    &&& g.len() == ls.len()
    &&& forall|y: int|
        0 <= y < ls.len() ==> (#[trigger] g[y]).len() == ls[y].len() && forall|x: int|
            0 <= x < ls[y].len() ==> tile_of(ls[y][x]) == Some(#[trigger] g[y][x])
}

/// Reads a map, one row per line; `None` on a byte other than `.`, `#` and
/// `S`.
pub fn parse(input: &str) -> (r: Option<Vec<Vec<Tile>>>)
    ensures
        r matches Some(g) ==> map_text(lines(input.spec_bytes()), grid_view(g@)),
        r is None ==> exists|y: int, x: int|
            0 <= y < lines(input.spec_bytes()).len() && 0 <= x < lines(input.spec_bytes())[y].len()
                && tile_of(#[trigger] lines(input.spec_bytes())[y][x]) is None,
{
    let ls = split_lines(input.as_bytes());
    let ghost ln = lines(input.spec_bytes());
    assert(views(ls@).len() == ls@.len());
    let mut g: Vec<Vec<Tile>> = Vec::new();
    let mut y: usize = 0;
    while y < ls.len()
        invariant
            views(ls@) == ln,
            ln == lines(input.spec_bytes()),
            ls@.len() == ln.len(),
            y <= ls@.len(),
            g@.len() == y,
            forall|j: int|
                0 <= j < y ==> (#[trigger] grid_view(g@)[j]).len() == ln[j].len() && forall|x: int|
                    0 <= x < ln[j].len() ==> tile_of(ln[j][x]) == Some(
                        #[trigger] grid_view(g@)[j][x],
                    ),
        decreases ls@.len() - y,
    {
        let line = &ls[y];
        assert(line@ == ln[y as int]);
        let mut row: Vec<Tile> = Vec::new();
        let mut x: usize = 0;
        while x < line.len()
            invariant
                x <= line@.len(),
                line@ == ln[y as int],
                y < ln.len(),
                ln == lines(input.spec_bytes()),
                row@.len() == x,
                forall|i: int| 0 <= i < x ==> tile_of(line@[i]) == Some(#[trigger] row@[i]),
            decreases line@.len() - x,
        {
            let b = line[x];
            let t = if b == 0x2e {
                Tile::Plot
            } else if b == 0x23 {
                Tile::Rock
            } else if b == 0x53 {
                Tile::S
            } else {
                assert(tile_of(ln[y as int][x as int]) is None);
                return None;
            };
            row.push(t);
            x = x + 1;
        }
        let ghost before = g@;
        let ghost rv = row@;
        g.push(row);
        assert forall|j: int| 0 <= j <= y implies (#[trigger] grid_view(g@)[j]).len() == ln[j].len()
            && forall|x: int|
            0 <= x < ln[j].len() ==> tile_of(ln[j][x]) == Some(#[trigger] grid_view(g@)[j][x]) by {
            if j < y {
                assert(grid_view(g@)[j] == grid_view(before)[j]);
                assert forall|x: int| 0 <= x < ln[j].len() implies tile_of(ln[j][x]) == Some(
                    #[trigger] grid_view(g@)[j][x],
                ) by {
                    assert(tile_of(ln[j][x]) == Some(grid_view(before)[j][x]));
                }
            } else {
                assert(grid_view(g@)[j] == rv);
                assert forall|x: int| 0 <= x < ln[j].len() implies tile_of(ln[j][x]) == Some(
                    #[trigger] grid_view(g@)[j][x],
                ) by {
                    assert(tile_of(line@[x]) == Some(rv[x]));
                }
            }
        }
        y = y + 1;
    }
    Some(g)
}

/// The four positions next to (`x`, `y`): left, right, up, down.
pub fn get_neighbors(pos: (i32, i32)) -> (r: Vec<(i32, i32)>)
    requires
        i32::MIN < pos.0 < i32::MAX,
        i32::MIN < pos.1 < i32::MAX,
    ensures
        r@.len() == 4,
        r@[0] == ((pos.0 - 1) as i32, pos.1),
        r@[1] == ((pos.0 + 1) as i32, pos.1),
        r@[2] == (pos.0, (pos.1 - 1) as i32),
        r@[3] == (pos.0, (pos.1 + 1) as i32),
{
    let (x, y) = pos;
    vec![(x - 1, y), (x + 1, y), (x, y - 1), (x, y + 1)]
}

/// No rock stands at (`x`, `y`); positions off the map hold none.
pub open spec fn not_rock(g: Seq<Seq<Tile>>, x: int, y: int) -> bool {
    !(0 <= y < g.len() && 0 <= x < g[y].len() && g[y][x] == Tile::Rock)
}

/// The neighbors of `pos`, in the order of `get_neighbors`, that hold no rock.
pub open spec fn open_neighbors(g: Seq<Seq<Tile>>, pos: (i32, i32)) -> Seq<(i32, i32)> {
    let ns = seq![
        ((pos.0 - 1) as i32, pos.1),
        ((pos.0 + 1) as i32, pos.1),
        (pos.0, (pos.1 - 1) as i32),
        (pos.0, (pos.1 + 1) as i32),
    ];
    ns.filter(|q: (i32, i32)| not_rock(g, q.0 as int, q.1 as int))
}

fn not_rock_exec(map: &Vec<Vec<Tile>>, x: i32, y: i32) -> (r: bool)
    ensures
        r == not_rock(grid_view(map@), x as int, y as int),
{
    let ghost g = grid_view(map@);
    assert(g.len() == map@.len());
    if y < 0 || x < 0 || y as usize >= map.len() {
        return true;
    }
    assert(g[y as int] == map@[y as int]@);
    if x as usize >= map[y as usize].len() {
        return true;
    }
    map[y as usize][x as usize] != Tile::Rock
}

/// The neighbors of `pos` that hold no rock.
pub fn get_valid_neigbors(pos: (i32, i32), map: &Vec<Vec<Tile>>) -> (r: Vec<(i32, i32)>)
    requires
        i32::MIN < pos.0 < i32::MAX,
        i32::MIN < pos.1 < i32::MAX,
    ensures
        r@ == open_neighbors(grid_view(map@), pos),
{
    let ghost g = grid_view(map@);
    let ns = get_neighbors(pos);
    let ghost nsv = seq![
        ((pos.0 - 1) as i32, pos.1),
        ((pos.0 + 1) as i32, pos.1),
        (pos.0, (pos.1 - 1) as i32),
        (pos.0, (pos.1 + 1) as i32),
    ];
    assert(ns@ =~= nsv);
    let mut r: Vec<(i32, i32)> = Vec::new();
    let mut i: usize = 0;
    while i < ns.len()
        invariant
            i <= ns@.len(),
            ns@ == nsv,
            g == grid_view(map@),
            r@ == nsv.subrange(0, i as int).filter(|q: (i32, i32)| not_rock(g, q.0 as int, q.1 as int)),
        decreases ns@.len() - i,
    {
        let q = ns[i];
        proof {
            assert(nsv.subrange(0, i + 1) =~= nsv.subrange(0, i as int).push(q));
            nsv.subrange(0, i as int).lemma_filter_push(q, |q: (i32, i32)| not_rock(g, q.0 as int, q.1 as int));
        }
        if not_rock_exec(map, q.0, q.1) {
            r.push(q);
        }
        i = i + 1;
    }
    assert(nsv.subrange(0, 4) =~= nsv);
    r
}

/// Whether (`r`, `c`) is marked in `cur`.
pub open spec fn marked(cur: Seq<Seq<bool>>, r: int, c: int) -> bool {
    0 <= r < cur.len() && 0 <= c < cur[r].len() && cur[r][c]
}

/// The cells one step from a marked cell: off the rocks, with a marked cell
/// next to them.
pub open spec fn step(g: Seq<Seq<Tile>>, cur: Seq<Seq<bool>>) -> Seq<Seq<bool>> {
    Seq::new(
        g.len(),
        |r: int|
            Seq::new(
                g[r].len(),
                |c: int|
                    g[r][c] != Tile::Rock && (marked(cur, r - 1, c) || marked(cur, r + 1, c)
                        || marked(cur, r, c - 1) || marked(cur, r, c + 1)),
            ),
    )
}

/// The cells where a walk of exactly `k` steps from (`sr`, `sc`) can end.
pub open spec fn reached(g: Seq<Seq<Tile>>, sr: int, sc: int, k: nat) -> Seq<Seq<bool>>
    decreases k,
{
    if k == 0 {
        Seq::new(g.len(), |r: int| Seq::new(g[r].len(), |c: int| r == sr && c == sc))
    } else {
        step(g, reached(g, sr, sc, (k - 1) as nat))
    }
}

/// How many of the first `k` cells of a row are marked.
pub open spec fn count_row(row: Seq<bool>, k: int) -> nat
    decreases k,
{
    if k <= 0 {
        0
    } else {
        count_row(row, k - 1) + if row[k - 1] {
            1nat
        } else {
            0nat
        }
    }
}

/// How many cells of the first `k` rows are marked.
pub open spec fn count(b: Seq<Seq<bool>>, k: int) -> nat
    decreases k,
{
    if k <= 0 {
        0
    } else {
        count(b, k - 1) + count_row(b[k - 1], b[k - 1].len() as int)
    }
}

pub open spec fn marks_view(b: Seq<Vec<bool>>) -> Seq<Seq<bool>> {
    b.map_values(|r: Vec<bool>| r@)
}

fn is_marked(cur: &Vec<Vec<bool>>, r: usize, c: usize, dr: i8, dc: i8) -> (m: bool)
    requires
        -1 <= dr <= 1,
        -1 <= dc <= 1,
    ensures
        m == marked(marks_view(cur@), r + dr, c + dc),
{
    let ghost v = marks_view(cur@);
    assert(v.len() == cur@.len());
    if (dr < 0 && r == 0) || (dc < 0 && c == 0) {
        return false;
    }
    let rr = if dr < 0 {
        r - 1
    } else if dr > 0 {
        if r >= cur.len() {
            return false;
        }
        r + 1
    } else {
        r
    };
    if rr >= cur.len() {
        return false;
    }
    assert(v[rr as int] == cur@[rr as int]@);
    let cc = if dc < 0 {
        c - 1
    } else if dc > 0 {
        if c >= cur[rr].len() {
            return false;
        }
        c + 1
    } else {
        c
    };
    if cc >= cur[rr].len() {
        return false;
    }
    cur[rr][cc]
}

/// The cells one step from the marked ones.
pub fn get_next(map: &Vec<Vec<Tile>>, current_pos: &Vec<Vec<bool>>) -> (r: Vec<Vec<bool>>)
    ensures
        marks_view(r@) == step(grid_view(map@), marks_view(current_pos@)),
{
    let ghost g = grid_view(map@);
    let ghost want = step(g, marks_view(current_pos@));
    let mut out: Vec<Vec<bool>> = Vec::new();
    let mut r: usize = 0;
    while r < map.len()
        invariant
            g == grid_view(map@),
            g.len() == map@.len(),
            want == step(g, marks_view(current_pos@)),
            r <= map@.len(),
            out@.len() == r,
            forall|j: int| 0 <= j < r ==> (#[trigger] out@[j])@ == want[j],
        decreases map@.len() - r,
    {
        let row = &map[r];
        assert(g[r as int] == row@);
        let mut nrow: Vec<bool> = Vec::new();
        let mut c: usize = 0;
        while c < row.len()
            invariant
                g == grid_view(map@),
                g.len() == map@.len(),
                want == step(g, marks_view(current_pos@)),
                r < map@.len(),
                g[r as int] == row@,
                c <= row@.len(),
                nrow@ == want[r as int].subrange(0, c as int),
            decreases row@.len() - c,
        {
            let v = row[c] != Tile::Rock && (is_marked(current_pos, r, c, -1, 0) || is_marked(
                current_pos,
                r,
                c,
                1,
                0,
            ) || is_marked(current_pos, r, c, 0, -1) || is_marked(current_pos, r, c, 0, 1));
            nrow.push(v);
            c = c + 1;
            assert(nrow@ =~= want[r as int].subrange(0, c as int));
        }
        assert(nrow@ =~= want[r as int]);
        out.push(nrow);
        r = r + 1;
    }
    assert(marks_view(out@) =~= want);
    out
}

proof fn lemma_count_grows(b: Seq<Seq<bool>>, k: int, j: int)
    requires
        0 <= k <= j,
    ensures
        count(b, k) <= count(b, j),
    decreases j,
{
    if j > k {
        lemma_count_grows(b, k, j - 1);
    }
}

fn count_marks(b: &Vec<Vec<bool>>) -> (n: Option<usize>)
    ensures
        n matches Some(v) ==> v == count(marks_view(b@), b@.len() as int),
        n is None ==> count(marks_view(b@), b@.len() as int) > usize::MAX,
{
    let ghost v = marks_view(b@);
    let mut n: usize = 0;
    let mut r: usize = 0;
    while r < b.len()
        invariant
            v == marks_view(b@),
            v.len() == b@.len(),
            r <= b@.len(),
            n == count(v, r as int),
        decreases b@.len() - r,
    {
        let row = &b[r];
        assert(v[r as int] == row@);
        let mut m: usize = 0;
        let mut c: usize = 0;
        while c < row.len()
            invariant
                c <= row@.len(),
                m == count_row(row@, c as int),
                m <= c,
            decreases row@.len() - c,
        {
            if row[c] {
                m = m + 1;
            }
            c = c + 1;
        }
        n = match n.checked_add(m) {
            Some(x) => x,
            None => {
                proof {
                    lemma_count_grows(v, r + 1, b@.len() as int);
                }
                return None;
            },
        };
        r = r + 1;
    }
    Some(n)
}

/// The map inside a ring of rocks one cell wide.
pub open spec fn bordered(g: Seq<Seq<Tile>>, w: int) -> Seq<Seq<Tile>> {
    Seq::new(
        (g.len() + 2) as nat,
        |r: int|
            Seq::new(
                (w + 2) as nat,
                |c: int|
                    if r == 0 || r == g.len() + 1 || c == 0 || c == w + 1 {
                        Tile::Rock
                    } else {
                        g[r - 1][c - 1]
                    },
            ),
    )
}

/// Every row has `w` tiles.
pub open spec fn rectangular(g: Seq<Seq<Tile>>, w: int) -> bool {
    forall|y: int| 0 <= y < g.len() ==> #[trigger] g[y].len() == w
}

/// The map with a ring of rocks around it. All rows must have the width of
/// the first, and there must be one.
pub fn install_rock_to_the_edges(map: &Vec<Vec<Tile>>) -> (r: Vec<Vec<Tile>>)
    requires
        map@.len() >= 1,
        rectangular(grid_view(map@), map@[0]@.len() as int),
        map@.len() + 2 <= usize::MAX,
        map@[0]@.len() + 2 <= usize::MAX,
    ensures
        grid_view(r@) == bordered(grid_view(map@), map@[0]@.len() as int),
{
    let ghost g = grid_view(map@);
    let h = map.len();
    let w = map[0].len();
    let ghost want = bordered(g, w as int);
    let mut out: Vec<Vec<Tile>> = Vec::new();
    let mut r: usize = 0;
    while r < h + 2
        invariant
            g == grid_view(map@),
            g.len() == h,
            h == map@.len(),
            w == map@[0]@.len(),
            h + 2 <= usize::MAX,
            w + 2 <= usize::MAX,
            rectangular(g, w as int),
            want == bordered(g, w as int),
            r <= h + 2,
            out@.len() == r,
            forall|j: int| 0 <= j < r ==> (#[trigger] out@[j])@ == want[j],
        decreases h + 2 - r,
    {
        let mut row: Vec<Tile> = Vec::new();
        let mut c: usize = 0;
        while c < w + 2
            invariant
                g == grid_view(map@),
                g.len() == h,
                h == map@.len(),
                h + 2 <= usize::MAX,
                w + 2 <= usize::MAX,
                rectangular(g, w as int),
                want == bordered(g, w as int),
                r < h + 2,
                c <= w + 2,
                row@ == want[r as int].subrange(0, c as int),
            decreases w + 2 - c,
        {
            let t = if r == 0 || r == h + 1 || c == 0 || c == w + 1 {
                Tile::Rock
            } else {
                assert(g[r - 1] == map@[r - 1]@);
                assert(g[r - 1].len() == w);
                map[r - 1][c - 1]
            };
            row.push(t);
            c = c + 1;
            assert(row@ =~= want[r as int].subrange(0, c as int));
        }
        assert(row@ =~= want[r as int]);
        out.push(row);
        r = r + 1;
    }
    assert(grid_view(out@) =~= want);
    out
}

/// `(r, c)` is the first start tile, row by row.
pub open spec fn first_start(g: Seq<Seq<Tile>>, r: int, c: int) -> bool {
    &&& 0 <= r < g.len()
    &&& 0 <= c < g[r].len()
    &&& g[r][c] == Tile::S
    &&& forall|y: int, x: int|
        0 <= y < g.len() && 0 <= x < g[y].len() && (y < r || (y == r && x < c)) ==> #[trigger] g[y][x]
            != Tile::S
}

/// The number of plots where a walk of exactly `steps` steps from the start
/// can end; `None` if the map has no start or the count exceeds the word
/// size.
pub fn solve_1(map: &Vec<Vec<Tile>>, steps: usize) -> (r: Option<usize>)
    ensures
        r matches Some(v) ==> exists|sr: int, sc: int|
            #[trigger] first_start(grid_view(map@), sr, sc) && v == count(
                reached(grid_view(map@), sr, sc, steps as nat),
                map@.len() as int,
            ),
{
    let ghost g = grid_view(map@);
    let mut sr: usize = 0;
    let mut found: Option<(usize, usize)> = None;
    while sr < map.len() && found.is_none()
        invariant
            g == grid_view(map@),
            g.len() == map@.len(),
            sr <= map@.len(),
            found is None ==> forall|y: int, x: int|
                0 <= y < sr && 0 <= x < g[y].len() ==> #[trigger] g[y][x] != Tile::S,
            found matches Some((a, b)) ==> first_start(g, a as int, b as int),
        decreases map@.len() - sr,
    {
        let row = &map[sr];
        assert(g[sr as int] == row@);
        let mut c: usize = 0;
        while c < row.len() && row[c] != Tile::S
            invariant
                g == grid_view(map@),
                g.len() == map@.len(),
                sr < map@.len(),
                g[sr as int] == row@,
                c <= row@.len(),
                forall|y: int, x: int|
                    0 <= y < sr && 0 <= x < g[y].len() ==> #[trigger] g[y][x] != Tile::S,
                forall|x: int| 0 <= x < c ==> #[trigger] g[sr as int][x] != Tile::S,
            decreases row@.len() - c,
        {
            c = c + 1;
        }
        if c < row.len() {
            found = Some((sr, c));
            sr = map.len();
        } else {
            sr = sr + 1;
        }
    }
    let (r0, c0) = match found {
        Some(p) => p,
        None => {
            return None;
        },
    };
    let mut cur: Vec<Vec<bool>> = Vec::new();
    let mut r: usize = 0;
    while r < map.len()
        invariant
            g == grid_view(map@),
            g.len() == map@.len(),
            r <= map@.len(),
            cur@.len() == r,
            forall|j: int|
                0 <= j < r ==> (#[trigger] cur@[j])@ == Seq::new(
                    g[j].len(),
                    |c: int| j == r0 && c == c0,
                ),
        decreases map@.len() - r,
    {
        let mut row: Vec<bool> = Vec::new();
        let mut c: usize = 0;
        assert(g[r as int] == map@[r as int]@);
        while c < map[r].len()
            invariant
                g == grid_view(map@),
                r < map@.len(),
                g[r as int] == map@[r as int]@,
                c <= map@[r as int]@.len(),
                row@ == Seq::new(c as nat, |x: int| r == r0 && x == c0),
            decreases map@[r as int]@.len() - c,
        {
            row.push(r == r0 && c == c0);
            c = c + 1;
            assert(row@ =~= Seq::new(c as nat, |x: int| r == r0 && x == c0));
        }
        cur.push(row);
        r = r + 1;
    }
    assert forall|j: int| 0 <= j < g.len() implies #[trigger] marks_view(cur@)[j] == reached(
        g,
        r0 as int,
        c0 as int,
        0,
    )[j] by {
        assert(marks_view(cur@)[j] =~= reached(g, r0 as int, c0 as int, 0)[j]);
    }
    assert(marks_view(cur@) =~= reached(g, r0 as int, c0 as int, 0));
    let mut k: usize = 0;
    while k < steps
        invariant
            g == grid_view(map@),
            k <= steps,
            marks_view(cur@) == reached(g, r0 as int, c0 as int, k as nat),
        decreases steps - k,
    {
        cur = get_next(map, &cur);
        k = k + 1;
    }
    let n = count_marks(&cur);
    proof {
        assert(cur@.len() == marks_view(cur@).len());
        assert(marks_view(cur@).len() == g.len());
    }
    n
}

} // verus!
