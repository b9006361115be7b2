//! Mirrors in a pattern of ash and rocks: a vertical (horizontal) mirror line
//! lies between two columns (rows) such that the reflected cells differ in
//! exactly a given number of places.
use vstd::prelude::*;
use vstd::string::StringSliceAdditionalSpecFns;
use crate::text::{lines, split_lines, views};

verus! {

/// Every row of `rows` has `cols` bytes, and there is at least one row.
pub open spec fn rectangular(rows: Seq<Seq<u8>>, cols: int) -> bool {
    &&& rows.len() >= 1
    &&& cols >= 1
    &&& forall|r: int| 0 <= r < rows.len() ==> #[trigger] rows[r].len() == cols
}

/// Among the first `k` rows, how many differ between columns `a` and `b`.
pub open spec fn col_mismatch(rows: Seq<Seq<u8>>, a: int, b: int, k: int) -> int
    decreases k,
{
    if k <= 0 {
        0
    } else {
        col_mismatch(rows, a, b, k - 1) + if rows[k - 1][a] != rows[k - 1][b] {
            1int
        } else {
            0
        }
    }
}

/// Among the first `k` columns, how many differ between rows `a` and `b`.
pub open spec fn row_mismatch(rows: Seq<Seq<u8>>, a: int, b: int, k: int) -> int
    decreases k,
{
    if k <= 0 {
        0
    } else {
        row_mismatch(rows, a, b, k - 1) + if rows[a][k - 1] != rows[b][k - 1] {
            1int
        } else {
            0
        }
    }
}

/// How many cell pairs differ across the mirror after column (row) `i`,
/// over the first `k` pairs of columns (rows) away from it.
pub open spec fn diff_across(rows: Seq<Seq<u8>>, vertical: bool, i: int, k: int) -> int
    decreases k,
{
    if k <= 0 {
        0
    } else {
        diff_across(rows, vertical, i, k - 1) + if vertical {
            col_mismatch(rows, i - (k - 1), i + k, rows.len() as int)
        } else {
            row_mismatch(rows, i - (k - 1), i + k, rows[0].len() as int)
        }
    }
}

/// The number of columns (rows) that a pattern of `n` reflects across the
/// line after index `i`.
pub open spec fn reach(n: int, i: int) -> int {
    if i + 1 < n - i - 1 {
        i + 1
    } else {
        n - i - 1
    }
}

/// The mirror after column (row) `i` leaves exactly `d` differences.
pub open spec fn is_mirror(rows: Seq<Seq<u8>>, vertical: bool, i: int, d: int) -> bool {
    let n = if vertical {
        rows[0].len() as int
    } else {
        rows.len() as int
    };
    diff_across(rows, vertical, i, reach(n, i)) == d
}

/// `r` is one more than the first mirror index, or `None` when there is none.
pub open spec fn first_mirror(rows: Seq<Seq<u8>>, vertical: bool, d: int, r: Option<usize>) -> bool {
    let n = if vertical {
        rows[0].len() as int
    } else {
        rows.len() as int
    };
    match r {
        Some(x) => 1 <= x < n && is_mirror(rows, vertical, x - 1, d) && forall|j: int|
            0 <= j < x - 1 ==> !is_mirror(rows, vertical, j, d),
        None => forall|j: int| 0 <= j < n - 1 ==> !is_mirror(rows, vertical, j, d),
    }
}

/// How many cell pairs differ across the mirror after index `i`.
fn count_diff(rows: &Vec<Vec<u8>>, cols: usize, vertical: bool, i: usize) -> (r: u128)
    requires
        rectangular(views(rows@), cols as int),
        i + 1 < (if vertical {
            cols as int
        } else {
            rows@.len() as int
        }),
    ensures
        r == diff_across(
            views(rows@),
            vertical,
            i as int,
            reach(
                if vertical {
                    cols as int
                } else {
                    rows@.len() as int
                },
                i as int,
            ),
        ),
{
    let ghost g = views(rows@);
    let nrows = rows.len();
    let n = if vertical {
        cols
    } else {
        nrows
    };
    let k = if i + 1 < n - i - 1 {
        i + 1
    } else {
        n - i - 1
    };
    let width = if vertical {
        nrows
    } else {
        cols
    };
    assert(g.len() == nrows);
    assert(g[0].len() == cols);
    let mut total: u128 = 0;
    let mut o: usize = 0;
    while o < k
        invariant
            g == views(rows@),
            g.len() == nrows,
            rectangular(g, cols as int),
            width == (if vertical {
                nrows
            } else {
                cols
            }),
            k <= i + 1,
            i + k < n,
            n == (if vertical {
                cols
            } else {
                nrows
            }),
            o <= k,
            total == diff_across(g, vertical, i as int, o as int),
            total <= o * width,
        decreases k - o,
    {
        let a = i - o;
        let b = i + 1 + o;
        let mut sub: u128 = 0;
        let mut r: usize = 0;
        while r < width
            invariant
                g == views(rows@),
                g.len() == nrows,
                rectangular(g, cols as int),
                width == (if vertical {
                    nrows
                } else {
                    cols
                }),
                a < b < n,
                n == (if vertical {
                    cols
                } else {
                    nrows
                }),
                r <= width,
                sub == (if vertical {
                    col_mismatch(g, a as int, b as int, r as int)
                } else {
                    row_mismatch(g, a as int, b as int, r as int)
                }),
                sub <= r,
            decreases width - r,
        {
            let differs = if vertical {
                assert(g[r as int] == rows@[r as int]@);
                rows[r][a] != rows[r][b]
            } else {
                assert(g[a as int] == rows@[a as int]@);
                assert(g[b as int] == rows@[b as int]@);
                rows[a][r] != rows[b][r]
            };
            if differs {
                sub = sub + 1;
            }
            r = r + 1;
        }
        proof {
            assert(total + sub <= (o + 1) * width) by (nonlinear_arith)
                requires
                    total <= o * width,
                    sub <= width,
            ;
            assert(o * width <= usize::MAX * usize::MAX) by (nonlinear_arith)
                requires
                    o <= usize::MAX,
                    width <= usize::MAX,
            ;
            assert((o + 1) * width <= (usize::MAX + 1) * usize::MAX) by (nonlinear_arith)
                requires
                    o < usize::MAX,
                    width <= usize::MAX,
            ;
        }
        total = total + sub;
        o = o + 1;
    }
    total
}

fn find_mirror(rows: &Vec<Vec<u8>>, cols: usize, vertical: bool, d: usize) -> (r: Option<usize>)
    requires
        rectangular(views(rows@), cols as int),
    ensures
        first_mirror(views(rows@), vertical, d as int, r),
{
    let ghost g = views(rows@);
    assert(g[0].len() == cols);
    let n = if vertical {
        cols
    } else {
        rows.len()
    };
    let mut i: usize = 0;
    while i + 1 < n
        invariant
            g == views(rows@),
            rectangular(g, cols as int),
            g[0].len() == cols,
            g.len() == rows@.len(),
            n == (if vertical {
                cols as int
            } else {
                rows@.len() as int
            }),
            n >= 1,
            i < n,
            forall|j: int| 0 <= j < i ==> !is_mirror(g, vertical, j, d as int),
        decreases n - i,
    {
        if count_diff(rows, cols, vertical, i) == d as u128 {
            return Some(i + 1);
        }
        i = i + 1;
    }
    None
}

/// Splits a pattern into its rows, if they all have the length of the first
/// one, and there is at least one.
fn rows_of(input: &str) -> (r: Option<(Vec<Vec<u8>>, usize)>)
    ensures
        r matches Some((rows, cols)) ==> views(rows@) == lines(input.spec_bytes()) && rectangular(
            views(rows@),
            cols as int,
        ),
        r is None ==> !(exists|c: int| rectangular(lines(input.spec_bytes()), c)),
{
    let rows = split_lines(input.as_bytes());
    let ghost g = views(rows@);
    assert(g.len() == rows@.len());
    if rows.len() == 0 {
        return None;
    }
    let cols = rows[0].len();
    assert(g[0].len() == cols);
    if cols == 0 {
        return None;
    }
    let mut k: usize = 0;
    while k < rows.len()
        invariant
            g == views(rows@),
            g.len() == rows@.len(),
            g == lines(input.spec_bytes()),
            g[0].len() == cols,
            k <= rows@.len(),
            forall|r: int| 0 <= r < k ==> #[trigger] g[r].len() == cols,
        decreases rows@.len() - k,
    {
        assert(g[k as int] == rows@[k as int]@);
        if rows[k].len() != cols {
            return None;
        }
        k = k + 1;
    }
    Some((rows, cols))
}

/// The number of columns left of the first vertical mirror with exactly
/// `discrepancy` differences; `None` when there is none or the pattern is not
/// a rectangle.
pub fn get_vertical_symmetrical_index(input: &str, discrepancy: usize) -> (r: Option<usize>)
    ensures
        r is Some ==> exists|c: int| rectangular(lines(input.spec_bytes()), c),
        (exists|c: int| rectangular(lines(input.spec_bytes()), c)) ==> first_mirror(
            lines(input.spec_bytes()),
            true,
            discrepancy as int,
            r,
        ),
{
    match rows_of(input) {
        Some((rows, cols)) => find_mirror(&rows, cols, true, discrepancy),
        None => None,
    }
}

/// The number of rows above the first horizontal mirror with exactly
/// `discrepancy` differences; `None` when there is none or the pattern is not
/// a rectangle.
pub fn get_horizontal_symmetrical_index(input: &str, discrepancy: usize) -> (r: Option<usize>)
    ensures
        r is Some ==> exists|c: int| rectangular(lines(input.spec_bytes()), c),
        (exists|c: int| rectangular(lines(input.spec_bytes()), c)) ==> first_mirror(
            lines(input.spec_bytes()),
            false,
            discrepancy as int,
            r,
        ),
{
    match rows_of(input) {
        Some((rows, cols)) => find_mirror(&rows, cols, false, discrepancy),
        None => None,
    }
}

/// A pattern's note: the columns left of its vertical mirror, else a hundred
/// times the rows above its horizontal mirror, else zero.
pub fn summarize(puzzle: &str, discrepancy: usize) -> (r: usize)
    requires
        lines(puzzle.spec_bytes()).len() * 100 <= usize::MAX,
    ensures
        (exists|c: int| rectangular(lines(puzzle.spec_bytes()), c)) ==> exists|
            v: Option<usize>,
            h: Option<usize>,
        |
            first_mirror(lines(puzzle.spec_bytes()), true, discrepancy as int, v) && first_mirror(
                lines(puzzle.spec_bytes()),
                false,
                discrepancy as int,
                h,
            ) && r == match (v, h) {
                (Some(x), _) => x as int,
                (None, Some(y)) => 100 * y,
                (None, None) => 0,
            },
        !(exists|c: int| rectangular(lines(puzzle.spec_bytes()), c)) ==> r == 0,
{
    let v = get_vertical_symmetrical_index(puzzle, discrepancy);
    if let Some(x) = v {
        // the horizontal answer is not used, but the contract speaks of it
        let _h = get_horizontal_symmetrical_index(puzzle, discrepancy);
        return x;
    }
    match get_horizontal_symmetrical_index(puzzle, discrepancy) {
        Some(y) => y * 100,
        None => 0,
    }
}

} // verus!
