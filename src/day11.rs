//! Cosmic expansion: every row and column without a galaxy counts as
//! `expansion_rate` rows or columns, and the answer is the sum of the
//! distances, along rows and columns, between all pairs of galaxies.
use vstd::prelude::*;
use vstd::string::StringSliceAdditionalSpecFns;
use itertools::Itertools;
use crate::text::{lines, split_lines, views};

verus! {

#[derive(Debug, PartialEq, Eq, Clone, Copy, Structural)]
pub enum Tile {
    Star,
    EmptySpace,
}

pub open spec fn grid_view(g: Seq<Vec<Tile>>) -> Seq<Seq<Tile>> {
    g.map_values(|r: Vec<Tile>| r@)
}

/// Each line's bytes read as tiles: `.` empty space, `#` a galaxy.
pub open spec fn universe_text(ls: Seq<Seq<u8>>, u: Seq<Seq<Tile>>) -> bool {
    &&& u.len() == ls.len()
    &&& forall|y: int|
        0 <= y < ls.len() ==> (#[trigger] u[y]).len() == ls[y].len() && forall|x: int|
            0 <= x < ls[y].len() ==> (ls[y][x] == 0x2e && u[y][x] == Tile::EmptySpace) || (ls[y][x]
                == 0x23 && #[trigger] u[y][x] == Tile::Star)
}

/// Reads a universe, one row per line; `None` on a byte other than `.` and
/// `#`.
pub fn parse_input(input: &str) -> (r: Option<Vec<Vec<Tile>>>)
    ensures
        r matches Some(u) ==> universe_text(lines(input.spec_bytes()), grid_view(u@)),
{
    let ls = split_lines(input.as_bytes());
    let ghost ln = lines(input.spec_bytes());
    assert(views(ls@).len() == ls@.len());
    let mut u: Vec<Vec<Tile>> = Vec::new();
    let mut y: usize = 0;
    while y < ls.len()
        invariant
            views(ls@) == ln,
            ln == lines(input.spec_bytes()),
            ls@.len() == ln.len(),
            y <= ls@.len(),
            u@.len() == y,
            forall|j: int|
                0 <= j < y ==> (#[trigger] grid_view(u@)[j]).len() == ln[j].len() && forall|x: int|
                    0 <= x < ln[j].len() ==> (ln[j][x] == 0x2e && grid_view(u@)[j][x]
                        == Tile::EmptySpace) || (ln[j][x] == 0x23 && #[trigger] grid_view(u@)[j][x]
                        == Tile::Star),
        decreases ls@.len() - y,
    {
        let line = &ls[y];
        assert(line@ == ln[y as int]);
        let mut row: Vec<Tile> = Vec::new();
        let mut x: usize = 0;
        while x < line.len()
            invariant
                x <= line@.len(),
                row@.len() == x,
                forall|i: int|
                    0 <= i < x ==> (line@[i] == 0x2e && row@[i] == Tile::EmptySpace) || (line@[i]
                        == 0x23 && #[trigger] row@[i] == Tile::Star),
            decreases line@.len() - x,
        {
            let t = if line[x] == 0x2e {
                Tile::EmptySpace
            } else if line[x] == 0x23 {
                Tile::Star
            } else {
                return None;
            };
            row.push(t);
            x = x + 1;
        }
        let ghost before = u@;
        let ghost rv = row@;
        u.push(row);
        assert forall|j: int| 0 <= j <= y implies (#[trigger] grid_view(u@)[j]).len() == ln[j].len()
            && forall|x: int|
            0 <= x < ln[j].len() ==> (ln[j][x] == 0x2e && grid_view(u@)[j][x] == Tile::EmptySpace)
                || (ln[j][x] == 0x23 && #[trigger] grid_view(u@)[j][x] == Tile::Star) by {
            if j < y {
                assert(grid_view(u@)[j] == grid_view(before)[j]);
            } else {
                assert(grid_view(u@)[j] == rv);
            }
        }
        y = y + 1;
    }
    Some(u)
}

/// The indices `i < k` with `flags[i]`, in order.
pub open spec fn true_positions(flags: Seq<bool>, k: int) -> Seq<usize>
    decreases k,
{
    if k <= 0 {
        Seq::empty()
    } else if flags[k - 1] {
        true_positions(flags, k - 1).push((k - 1) as usize)
    } else {
        true_positions(flags, k - 1)
    }
}

/// Relies on itertools' `Itertools::positions`, which yields the indices of
/// the items that satisfy the predicate, counted from the start, in order.
#[verifier::external_body]
fn positions_of(flags: &Vec<bool>) -> (r: Vec<usize>)
    ensures
        r@ == true_positions(flags@, flags@.len() as int),
{
    flags.iter().positions(|&f| f).collect()
}

/// The pairs `(i, j)` with `from <= i < j < n`, ordered by `i`, then `j`.
pub open spec fn pairs_from(from: int, n: int) -> Seq<(usize, usize)>
    decreases n - from,
{
    if from >= n {
        Seq::empty()
    } else {
        Seq::new((n - from - 1) as nat, |k: int| (from as usize, (from + 1 + k) as usize)) + pairs_from(
            from + 1,
            n,
        )
    }
}

/// Relies on itertools' `Itertools::tuple_combinations` on `0..n`: it yields
/// every pair `(i, j)` with `i < j < n` once, in lexicographic order.
#[verifier::external_body]
fn index_pairs(n: usize) -> (r: Vec<(usize, usize)>)
    ensures
        r@ == pairs_from(0, n as int),
{
    (0..n).tuple_combinations().collect()
}

/// Row `y` holds no galaxy.
pub open spec fn empty_row(u: Seq<Seq<Tile>>, y: int) -> bool {
    forall|x: int| 0 <= x < u[y].len() ==> #[trigger] u[y][x] == Tile::EmptySpace
}

/// Column `x` holds no galaxy.
pub open spec fn empty_column(u: Seq<Seq<Tile>>, x: int) -> bool {
    forall|y: int| 0 <= y < u.len() ==> #[trigger] u[y][x] == Tile::EmptySpace
}

/// The rows and the columns without a galaxy, in order.
#[derive(Debug, PartialEq, Eq)]
pub struct DarkMatter {
    pub rows: Vec<usize>,
    pub columns: Vec<usize>,
}

/// There is at least one row, and no row has fewer than `w` tiles.
pub open spec fn wide_enough(u: Seq<Seq<Tile>>, w: int) -> bool {
    &&& u.len() >= 1
    &&& forall|y: int| 0 <= y < u.len() ==> #[trigger] u[y].len() >= w
}

/// Every row has `w` tiles, and there is at least one row.
pub open spec fn rectangular(u: Seq<Seq<Tile>>, w: int) -> bool {
    &&& u.len() >= 1
    &&& forall|y: int| 0 <= y < u.len() ==> #[trigger] u[y].len() == w
}

/// `dark` lists the empty rows and the empty columns of `u`, in order.
pub open spec fn dark_of(u: Seq<Seq<Tile>>, dark: DarkMatter) -> bool {
    &&& dark.rows@ == true_positions(Seq::new(u.len(), |y: int| empty_row(u, y)), u.len() as int)
    &&& dark.columns@ == true_positions(
        Seq::new(u[0].len(), |x: int| empty_column(u, x)),
        u[0].len() as int,
    )
}

/// The rows and columns that hold no galaxy; columns are those of the first
/// row. No row may be shorter than the first, and there must be one.
pub fn get_dark_matter(universe: &Vec<Vec<Tile>>) -> (r: DarkMatter)
    requires
        wide_enough(grid_view(universe@), grid_view(universe@)[0].len() as int),
    ensures
        dark_of(grid_view(universe@), r),
{
    let ghost u = grid_view(universe@);
    let h = universe.len();
    let w = universe[0].len();
    assert(u[0] == universe@[0]@);
    let mut rows: Vec<bool> = Vec::new();
    let mut y: usize = 0;
    while y < h
        invariant
            u == grid_view(universe@),
            u.len() == h,
            y <= h,
            rows@ == Seq::new(y as nat, |j: int| empty_row(u, j)),
        decreases h - y,
    {
        let row = &universe[y];
        assert(u[y as int] == row@);
        let mut all = true;
        let mut x: usize = 0;
        while x < row.len()
            invariant
                x <= row@.len(),
                all == forall|i: int| 0 <= i < x ==> row@[i] == Tile::EmptySpace,
            decreases row@.len() - x,
        {
            if row[x] != Tile::EmptySpace {
                all = false;
            }
            x = x + 1;
        }
        rows.push(all);
        y = y + 1;
        assert(rows@ =~= Seq::new(y as nat, |j: int| empty_row(u, j)));
    }
    let mut cols: Vec<bool> = Vec::new();
    let mut x: usize = 0;
    while x < w
        invariant
            u == grid_view(universe@),
            u.len() == h,
            wide_enough(u, w as int),
            x <= w,
            cols@ == Seq::new(x as nat, |j: int| empty_column(u, j)),
        decreases w - x,
    {
        let mut all = true;
        let mut y: usize = 0;
        while y < h
            invariant
                u == grid_view(universe@),
                u.len() == h,
                wide_enough(u, w as int),
                x < w,
                y <= h,
                all == forall|i: int| 0 <= i < y ==> u[i][x as int] == Tile::EmptySpace,
            decreases h - y,
        {
            assert(u[y as int] == universe@[y as int]@);
            if universe[y][x] != Tile::EmptySpace {
                all = false;
            }
            y = y + 1;
        }
        cols.push(all);
        x = x + 1;
        assert(cols@ =~= Seq::new(x as nat, |j: int| empty_column(u, j)));
    }
    let r = DarkMatter { rows: positions_of(&rows), columns: positions_of(&cols) };
    assert(universe@[0]@.len() == u[0].len());
    r
}


pub open spec fn star_flags(row: Seq<Tile>) -> Seq<bool> {
    Seq::new(row.len(), |x: int| row[x] == Tile::Star)
}

/// The galaxies of the first `k` rows as (row, column), row by row and left
/// to right.
pub open spec fn stars(u: Seq<Seq<Tile>>, k: int) -> Seq<(usize, usize)>
    decreases k,
{
    if k <= 0 {
        Seq::empty()
    } else {
        let xs = true_positions(star_flags(u[k - 1]), u[k - 1].len() as int);
        stars(u, k - 1) + Seq::new(xs.len(), |i: int| ((k - 1) as usize, xs[i]))
    }
}

/// The galaxies, row by row and left to right.
pub fn get_star_coordinates(universe: &Vec<Vec<Tile>>) -> (r: Vec<(usize, usize)>)
    ensures
        r@ == stars(grid_view(universe@), universe@.len() as int),
{
    let ghost u = grid_view(universe@);
    let mut out: Vec<(usize, usize)> = Vec::new();
    let mut y: usize = 0;
    while y < universe.len()
        invariant
            u == grid_view(universe@),
            u.len() == universe@.len(),
            y <= universe@.len(),
            out@ == stars(u, y as int),
        decreases universe@.len() - y,
    {
        let row = &universe[y];
        assert(u[y as int] == row@);
        let mut flags: Vec<bool> = Vec::new();
        let mut x: usize = 0;
        while x < row.len()
            invariant
                x <= row@.len(),
                flags@ == star_flags(row@).subrange(0, x as int),
            decreases row@.len() - x,
        {
            flags.push(row[x] == Tile::Star);
            x = x + 1;
            assert(flags@ =~= star_flags(row@).subrange(0, x as int));
        }
        assert(flags@ =~= star_flags(row@));
        let xs = positions_of(&flags);
        let ghost before = out@;
        let mut i: usize = 0;
        while i < xs.len()
            invariant
                i <= xs@.len(),
                out@ == before + Seq::new(i as nat, |j: int| (y, xs@[j])),
            decreases xs@.len() - i,
        {
            out.push((y, xs[i]));
            i = i + 1;
            assert(out@ =~= before + Seq::new(i as nat, |j: int| (y, xs@[j])));
        }
        y = y + 1;
        assert(out@ =~= stars(u, y as int));
    }
    out
}

/// How many of the first `k` entries of `v` lie in `lo..hi`.
pub open spec fn count_in(v: Seq<usize>, lo: int, hi: int, k: int) -> int
    decreases k,
{
    if k <= 0 {
        0
    } else {
        count_in(v, lo, hi, k - 1) + if lo <= v[k - 1] < hi {
            1int
        } else {
            0
        }
    }
}

pub open spec fn min(a: int, b: int) -> int {
    if a <= b {
        a
    } else {
        b
    }
}

pub open spec fn max(a: int, b: int) -> int {
    if a >= b {
        a
    } else {
        b
    }
}

/// The distance between two galaxies along rows and columns, each empty row
/// and column crossed counting `rate` times.
pub open spec fn distance(a: (usize, usize), b: (usize, usize), dark: DarkMatter, rate: int) -> int {
    let r0 = min(a.0 as int, b.0 as int);
    let r1 = max(a.0 as int, b.0 as int);
    let c0 = min(a.1 as int, b.1 as int);
    let c1 = max(a.1 as int, b.1 as int);
    r1 - r0 + c1 - c0 + (count_in(dark.rows@, r0, r1, dark.rows@.len() as int) + count_in(
        dark.columns@,
        c0,
        c1,
        dark.columns@.len() as int,
    )) * (rate - 1)
}

fn count_between(v: &Vec<usize>, lo: usize, hi: usize) -> (r: usize)
    ensures
        r == count_in(v@, lo as int, hi as int, v@.len() as int),
{
    let mut c: usize = 0;
    let mut k: usize = 0;
    while k < v.len()
        invariant
            k <= v@.len(),
            c == count_in(v@, lo as int, hi as int, k as int),
            c <= k,
        decreases v@.len() - k,
    {
        if lo <= v[k] && v[k] < hi {
            c = c + 1;
        }
        k = k + 1;
    }
    c
}

/// The distance between two galaxies once each empty row and column counts
/// `expansion_rate` times; `None` when it exceeds the word size. The rate
/// must be at least one.
pub fn get_manhattan_distance(
    star_1: (usize, usize),
    star_2: (usize, usize),
    dark_matter: &DarkMatter,
    expansion_rate: usize,
) -> (r: Option<usize>)
    requires
        expansion_rate >= 1,
    ensures
        r matches Some(v) ==> v == distance(star_1, star_2, *dark_matter, expansion_rate as int),
        r is None ==> distance(star_1, star_2, *dark_matter, expansion_rate as int) > usize::MAX,
{
    let (r0, r1) = if star_1.0 <= star_2.0 {
        (star_1.0, star_2.0)
    } else {
        (star_2.0, star_1.0)
    };
    let (c0, c1) = if star_1.1 <= star_2.1 {
        (star_1.1, star_2.1)
    } else {
        (star_2.1, star_1.1)
    };
    let er = count_between(&dark_matter.rows, r0, r1);
    let ec = count_between(&dark_matter.columns, c0, c1);
    proof {
        assert((er + ec) * (expansion_rate - 1) >= 0) by (nonlinear_arith)
            requires
                expansion_rate >= 1,
                er >= 0,
                ec >= 0,
        ;
    }
    let base = match (r1 - r0).checked_add(c1 - c0) {
        Some(b) => b,
        None => {
            return None;
        },
    };
    if expansion_rate == 1 {
        proof {
            assert((er + ec) * (expansion_rate - 1) == 0) by (nonlinear_arith)
                requires
                    expansion_rate == 1,
            ;
        }
        return Some(base);
    }
    let crossed = match er.checked_add(ec) {
        Some(x) => x,
        None => {
            proof {
                assert((er + ec) * (expansion_rate - 1) >= er + ec) by (nonlinear_arith)
                    requires
                        expansion_rate >= 2,
                        er + ec >= 0,
                ;
            }
            return None;
        },
    };
    let extra = match crossed.checked_mul(expansion_rate - 1) {
        Some(x) => x,
        None => {
            return None;
        },
    };
    base.checked_add(extra)
}

/// The sum of the distances over the first `k` pairs.
pub open spec fn pair_sum(
    ps: Seq<(usize, usize)>,
    st: Seq<(usize, usize)>,
    dark: DarkMatter,
    rate: int,
    k: int,
) -> int
    decreases k,
{
    if k <= 0 {
        0
    } else {
        pair_sum(ps, st, dark, rate, k - 1) + distance(st[ps[k - 1].0 as int], st[ps[k - 1].1 as int], dark, rate)
    }
}

proof fn lemma_pairs_in_range(from: int, n: int)
    requires
        0 <= from,
    ensures
        forall|k: int|
            0 <= k < pairs_from(from, n).len() ==> (#[trigger] pairs_from(from, n)[k]).0 < n
                && pairs_from(from, n)[k].1 < n,
    decreases n - from,
{
    if from < n {
        lemma_pairs_in_range(from + 1, n);
        let head = Seq::new((n - from - 1) as nat, |k: int| (from as usize, (from + 1 + k) as usize));
        assert forall|k: int| 0 <= k < pairs_from(from, n).len() implies (#[trigger] pairs_from(
            from,
            n,
        )[k]).0 < n && pairs_from(from, n)[k].1 < n by {
            if k < head.len() {
                assert(pairs_from(from, n)[k] == head[k]);
            } else {
                assert(pairs_from(from, n)[k] == pairs_from(from + 1, n)[k - head.len()]);
            }
        }
    }
}

/// Whether every row has the width of the first, and there is one.
fn is_rectangular(u: &Vec<Vec<Tile>>) -> (r: bool)
    ensures
        r == rectangular(grid_view(u@), grid_view(u@)[0].len() as int),
{
    if u.len() == 0 {
        return false;
    }
    let w = u[0].len();
    let mut y: usize = 0;
    while y < u.len()
        invariant
            y <= u@.len(),
            u@.len() >= 1,
            w == u@[0]@.len(),
            forall|j: int| 0 <= j < y ==> u@[j]@.len() == w,
        decreases u@.len() - y,
    {
        if u[y].len() != w {
            assert(grid_view(u@)[y as int].len() != grid_view(u@)[0].len());
            return false;
        }
        y = y + 1;
    }
    assert(forall|j: int| 0 <= j < u@.len() ==> #[trigger] grid_view(u@)[j] == u@[j]@);
    true
}

/// The sum of the distances between all pairs of galaxies; `None` if the
/// text is no rectangular universe, the rate is zero, or the sum exceeds the
/// word size.
pub fn solve_for(input: &str, expansion_rate: usize) -> (r: Option<usize>)
    ensures
        r matches Some(v) ==> exists|u: Seq<Seq<Tile>>, dark: DarkMatter|
            #[trigger] universe_text(lines(input.spec_bytes()), u) && #[trigger] dark_of(u, dark)
                && v == pair_sum(
                pairs_from(0, stars(u, u.len() as int).len() as int),
                stars(u, u.len() as int),
                dark,
                expansion_rate as int,
                pairs_from(0, stars(u, u.len() as int).len() as int).len() as int,
            ),
{
    if expansion_rate == 0 {
        return None;
    }
    let universe = match parse_input(input) {
        Some(u) => u,
        None => {
            return None;
        },
    };
    if !is_rectangular(&universe) {
        return None;
    }
    let ghost u = grid_view(universe@);
    proof {
        assert(universe@[0]@ == u[0]);
        assert(universe@.len() == u.len());
    }
    let dark = get_dark_matter(&universe);
    let st = get_star_coordinates(&universe);
    let ps = index_pairs(st.len());
    proof {
        lemma_pairs_in_range(0, st@.len() as int);
    }
    let mut total: usize = 0;
    let mut k: usize = 0;
    while k < ps.len()
        invariant
            ps@ == pairs_from(0, st@.len() as int),
            forall|j: int|
                0 <= j < ps@.len() ==> (#[trigger] ps@[j]).0 < st@.len() && ps@[j].1 < st@.len(),
            expansion_rate >= 1,
            k <= ps@.len(),
            total == pair_sum(ps@, st@, dark, expansion_rate as int, k as int),
        decreases ps@.len() - k,
    {
        let (i, j) = ps[k];
        assert(ps@[k as int] == (i, j));
        let d = match get_manhattan_distance(st[i], st[j], &dark, expansion_rate) {
            Some(d) => d,
            None => {
                return None;
            },
        };
        total = match total.checked_add(d) {
            Some(t) => t,
            None => {
                return None;
            },
        };
        k = k + 1;
    }
    Some(total)
}

} // verus!
