//! Engine schematic: the numbers of the grid that touch a symbol, even
//! diagonally, are part numbers; a `*` that touches exactly two numbers is a
//! gear, worth their product.
use vstd::prelude::*;
use vstd::string::StringSliceAdditionalSpecFns;
use regex::bytes::Regex;
use crate::text::{digits_value, is_digit, lines, parse_u64, split_lines, views};

verus! {

pub open spec fn is_ascii_text(line: Seq<u8>) -> bool {
    forall|i: int| 0 <= i < line.len() ==> line[i] < 0x80
}

/// `s..e` is a maximal run of digits of `line`.
pub open spec fn is_run(line: Seq<u8>, s: int, e: int) -> bool {
    &&& 0 <= s < e <= line.len()
    &&& forall|i: int| s <= i < e ==> is_digit(#[trigger] line[i])
    &&& s == 0 || !is_digit(line[s - 1])
    &&& e == line.len() || !is_digit(line[e])
}

/// `runs` lists the maximal digit runs of `line`, left to right, each once.
pub open spec fn all_runs(line: Seq<u8>, runs: Seq<(usize, usize)>) -> bool {
    &&& forall|k: int| 0 <= k < runs.len() ==> is_run(line, #[trigger] runs[k].0 as int, runs[k].1 as int)
    &&& forall|k: int| 0 <= k < runs.len() - 1 ==> (#[trigger] runs[k]).1 < runs[k + 1].0
    &&& forall|i: int|
        0 <= i < line.len() && is_digit(#[trigger] line[i]) ==> exists|k: int|
            0 <= k < runs.len() && (#[trigger] runs[k]).0 <= i < runs[k].1
}

/// Relies on regex's `bytes::Regex::find_iter` with the pattern `\d+`: its
/// successive non-overlapping leftmost-first matches are, on ASCII text, the
/// maximal runs of the digits 0 to 9, from left to right.
#[verifier::external_body]
fn digit_runs(line: &[u8]) -> (r: Vec<(usize, usize)>)
    requires
        is_ascii_text(line@),
    ensures
        all_runs(line@, r@),
{
    let re = Regex::new(r"\d+").unwrap();
    re.find_iter(line).map(|m| (m.start(), m.end())).collect()
}

proof fn lemma_run_unique(line: Seq<u8>, s1: int, e1: int, s2: int, e2: int, i: int)
    requires
        is_run(line, s1, e1),
        is_run(line, s2, e2),
        s1 <= i < e1,
        s2 <= i < e2,
    ensures
        s1 == s2,
        e1 == e2,
{
    if s1 < s2 {
        assert(is_digit(line[s2 - 1]));
    }
    if s2 < s1 {
        assert(is_digit(line[s1 - 1]));
    }
    if e1 < e2 {
        assert(is_digit(line[e1]));
    }
    if e2 < e1 {
        assert(is_digit(line[e2]));
    }
}

/// A number of the schematic: its value, its row, and its columns
/// `start..end`.
#[derive(Debug, PartialEq, Eq, Clone, Copy, Structural)]
pub struct Number {
    pub raw: usize,
    pub row: usize,
    pub start: usize,
    pub end: usize,
}

/// `ns` lists every number of the schematic `ls` once, row by row and left
/// to right, with its value.
pub open spec fn numbers_of(ls: Seq<Seq<u8>>, ns: Seq<Number>) -> bool {
    &&& forall|k: int|
        0 <= k < ns.len() ==> {
            let n = #[trigger] ns[k];
            &&& n.row < ls.len()
            &&& is_run(ls[n.row as int], n.start as int, n.end as int)
            &&& n.raw == digits_value(ls[n.row as int].subrange(n.start as int, n.end as int))
        }
    &&& forall|k: int|
        0 <= k < ns.len() - 1 ==> (#[trigger] ns[k]).row < ns[k + 1].row || (ns[k].row
            == ns[k + 1].row && ns[k].end < ns[k + 1].start)
    &&& forall|r: int, s: int, e: int|
        0 <= r < ls.len() && #[trigger] is_run(ls[r], s, e) ==> exists|k: int|
            0 <= k < ns.len() && ns[k].row == r && ns[k].start == s && ns[k].end == e
}

/// Some line is not ASCII, or holds a number larger than the word size.
pub open spec fn numbers_fail(ls: Seq<Seq<u8>>) -> bool {
    exists|r: int|
        0 <= r < ls.len() && (!is_ascii_text(#[trigger] ls[r]) || exists|s: int, e: int|
            is_run(ls[r], s, e) && digits_value(ls[r].subrange(s, e)) > usize::MAX)
}

/// The numbers of a schematic, row by row; `None` exactly when the text is
/// not ASCII or a number exceeds the word size.
pub fn get_numbers(input: &str) -> (r: Option<Vec<Number>>)
    ensures
        r matches Some(ns) ==> numbers_of(lines(input.spec_bytes()), ns@),
        r is None ==> numbers_fail(lines(input.spec_bytes())),
{
    let ls = split_lines(input.as_bytes());
    let ghost ln = lines(input.spec_bytes());
    assert(views(ls@).len() == ls@.len());
    let mut ns: Vec<Number> = Vec::new();
    let mut row: usize = 0;
    while row < ls.len()
        invariant
            views(ls@) == ln,
            ln == lines(input.spec_bytes()),
            ls@.len() == ln.len(),
            row <= ls@.len(),
            forall|k: int|
                0 <= k < ns@.len() ==> {
                    let n = #[trigger] ns@[k];
                    &&& n.row < row
                    &&& is_run(ln[n.row as int], n.start as int, n.end as int)
                    &&& n.raw == digits_value(
                        ln[n.row as int].subrange(n.start as int, n.end as int),
                    )
                },
            forall|k: int|
                0 <= k < ns@.len() - 1 ==> (#[trigger] ns@[k]).row < ns@[k + 1].row || (ns@[k].row
                    == ns@[k + 1].row && ns@[k].end < ns@[k + 1].start),
            forall|r: int, s: int, e: int|
                0 <= r < row && #[trigger] is_run(ln[r], s, e) ==> exists|k: int|
                    0 <= k < ns@.len() && ns@[k].row == r && ns@[k].start == s && ns@[k].end == e,
        decreases ls@.len() - row,
    {
        let line = ls[row].as_slice();
        assert(line@ == ln[row as int]);
        let mut i: usize = 0;
        while i < line.len()
            invariant
                i <= line@.len(),
                line@ == ln[row as int],
                row < ln.len(),
                ln == lines(input.spec_bytes()),
                forall|j: int| 0 <= j < i ==> line@[j] < 0x80,
            decreases line@.len() - i,
        {
            if line[i] >= 0x80 {
                assert(!is_ascii_text(ln[row as int]));
                return None;
            }
            i = i + 1;
        }
        let runs = digit_runs(line);
        let ghost before = ns@;
        let mut k: usize = 0;
        while k < runs.len()
            invariant
                views(ls@) == ln,
                ln == lines(input.spec_bytes()),
                ls@.len() == ln.len(),
                row < ls@.len(),
                line@ == ln[row as int],
                all_runs(line@, runs@),
                k <= runs@.len(),
                before.len() <= ns@.len(),
                ns@.subrange(0, before.len() as int) == before,
                ns@.len() - before.len() == k,
                forall|j: int|
                    0 <= j < k ==> ns@[before.len() + j] == (Number {
                        raw: ns@[before.len() + j].raw,
                        row: row,
                        start: runs@[j].0,
                        end: runs@[j].1,
                    }),
                forall|k2: int|
                    0 <= k2 < ns@.len() ==> {
                        let n = #[trigger] ns@[k2];
                        &&& n.row <= row
                        &&& is_run(ln[n.row as int], n.start as int, n.end as int)
                        &&& n.raw == digits_value(
                            ln[n.row as int].subrange(n.start as int, n.end as int),
                        )
                    },
                forall|k2: int|
                    0 <= k2 < before.len() ==> (#[trigger] ns@[k2]).row < row,
                forall|k2: int|
                    0 <= k2 < ns@.len() - 1 ==> (#[trigger] ns@[k2]).row < ns@[k2 + 1].row || (
                    ns@[k2].row == ns@[k2 + 1].row && ns@[k2].end < ns@[k2 + 1].start),
            decreases runs@.len() - k,
        {
            let (s, e) = runs[k];
            assert(is_run(line@, s as int, e as int));
            let (_, tail) = line.split_at(s);
            let (digits, _) = tail.split_at(e - s);
            assert(digits@ =~= line@.subrange(s as int, e as int));
            let v = match parse_u64(digits) {
                Some(v) => v,
                None => {
                    proof {
                        assert(crate::text::all_digits(digits@));
                        assert(is_run(ln[row as int], s as int, e as int));
                    }
                    return None;
                },
            };
            if v > usize::MAX as u64 {
                assert(is_run(ln[row as int], s as int, e as int));
                return None;
            }
            let ghost prev = ns@;
            ns.push(Number { raw: v as usize, row, start: s, end: e });
            proof {
                assert(ns@.subrange(0, before.len() as int) =~= before) by {
                    assert(prev.subrange(0, before.len() as int) == before);
                }
                if k > 0 {
                    assert(runs@[k - 1].1 < runs@[k as int].0);
                    assert(prev[prev.len() - 1] == ns@[before.len() + k - 1]);
                }
                if k == 0 && before.len() > 0 {
                    assert(prev[prev.len() - 1] == before[before.len() - 1]);
                }
            }
            k = k + 1;
        }
        proof {
            assert forall|s: int, e: int| #[trigger] is_run(ln[row as int], s, e) implies exists|
                k2: int,
            | 0 <= k2 < ns@.len() && ns@[k2].row == row && ns@[k2].start == s && ns@[k2].end == e by {
                assert(is_digit(line@[s]));
                let j = choose|j: int| 0 <= j < runs@.len() && (#[trigger] runs@[j]).0 <= s < runs@[j].1;
                lemma_run_unique(line@, s, e, runs@[j].0 as int, runs@[j].1 as int, s);
                assert(ns@[before.len() + j].start == runs@[j].0);
            }
            assert forall|r: int, s: int, e: int|
                0 <= r < row && #[trigger] is_run(ln[r], s, e) implies exists|k2: int|
                0 <= k2 < ns@.len() && ns@[k2].row == r && ns@[k2].start == s && ns@[k2].end == e by {
                let k2 = choose|k2: int|
                    0 <= k2 < before.len() && before[k2].row == r && before[k2].start == s
                        && before[k2].end == e;
                assert(ns@[k2] == before[k2]);
            }
        }
        row = row + 1;
    }
    Some(ns)
}


/// `es` lists the cells of `ls` other than `.`, as (row, column, byte), row by
/// row and left to right.
pub open spec fn schema_of(ls: Seq<Seq<u8>>, es: Seq<(usize, usize, u8)>) -> bool {
    &&& forall|k: int|
        0 <= k < es.len() ==> {
            let e = #[trigger] es[k];
            &&& e.0 < ls.len()
            &&& e.1 < ls[e.0 as int].len()
            &&& ls[e.0 as int][e.1 as int] == e.2
            &&& e.2 != 0x2e
        }
    &&& forall|k: int|
        0 <= k < es.len() - 1 ==> (#[trigger] es[k]).0 < es[k + 1].0 || (es[k].0 == es[k + 1].0
            && es[k].1 < es[k + 1].1)
    &&& forall|r: int, c: int|
        0 <= r < ls.len() && 0 <= c < ls[r].len() && #[trigger] ls[r][c] != 0x2e ==> exists|k: int|
            0 <= k < es.len() && es[k].0 == r && es[k].1 == c
}

/// The cells of a schematic other than `.`, row by row.
pub fn parse_input(input: &str) -> (r: Vec<(usize, usize, u8)>)
    ensures
        schema_of(lines(input.spec_bytes()), r@),
{
    let ls = split_lines(input.as_bytes());
    let ghost ln = lines(input.spec_bytes());
    assert(views(ls@).len() == ls@.len());
    let mut es: Vec<(usize, usize, u8)> = Vec::new();
    let mut row: usize = 0;
    while row < ls.len()
        invariant
            views(ls@) == ln,
            ln == lines(input.spec_bytes()),
            ls@.len() == ln.len(),
            row <= ls@.len(),
            forall|k: int|
                0 <= k < es@.len() ==> {
                    let e = #[trigger] es@[k];
                    &&& e.0 < row
                    &&& e.1 < ln[e.0 as int].len()
                    &&& ln[e.0 as int][e.1 as int] == e.2
                    &&& e.2 != 0x2e
                },
            forall|k: int|
                0 <= k < es@.len() - 1 ==> (#[trigger] es@[k]).0 < es@[k + 1].0 || (es@[k].0
                    == es@[k + 1].0 && es@[k].1 < es@[k + 1].1),
            forall|r: int, c: int|
                0 <= r < row && 0 <= c < ln[r].len() && #[trigger] ln[r][c] != 0x2e ==> exists|k: int|
                    0 <= k < es@.len() && es@[k].0 == r && es@[k].1 == c,
        decreases ls@.len() - row,
    {
        let line = &ls[row];
        assert(line@ == ln[row as int]);
        let ghost before = es@;
        let mut col: usize = 0;
        while col < line.len()
            invariant
                views(ls@) == ln,
                ls@.len() == ln.len(),
                row < ls@.len(),
                line@ == ln[row as int],
                col <= line@.len(),
                before.len() <= es@.len(),
                es@.subrange(0, before.len() as int) == before,
                forall|k: int| 0 <= k < before.len() ==> (#[trigger] es@[k]).0 < row,
                forall|k: int| before.len() <= k < es@.len() ==> (#[trigger] es@[k]).0 == row && es@[k].1 < col,
                forall|k: int|
                    0 <= k < es@.len() ==> {
                        let e = #[trigger] es@[k];
                        &&& e.0 <= row
                        &&& e.1 < ln[e.0 as int].len()
                        &&& ln[e.0 as int][e.1 as int] == e.2
                        &&& e.2 != 0x2e
                    },
                forall|k: int|
                    0 <= k < es@.len() - 1 ==> (#[trigger] es@[k]).0 < es@[k + 1].0 || (es@[k].0
                        == es@[k + 1].0 && es@[k].1 < es@[k + 1].1),
                forall|r: int, c: int|
                    0 <= r < row && 0 <= c < ln[r].len() && #[trigger] ln[r][c] != 0x2e ==> exists|
                        k: int,
                    | 0 <= k < before.len() && before[k].0 == r && before[k].1 == c,
                forall|c: int|
                    0 <= c < col && #[trigger] ln[row as int][c] != 0x2e ==> exists|k: int|
                        before.len() <= k < es@.len() && es@[k].0 == row && es@[k].1 == c,
            decreases line@.len() - col,
        {
            if line[col] != 0x2e {
                let ghost prev = es@;
                es.push((row, col, line[col]));
                proof {
                    assert(es@.subrange(0, before.len() as int) =~= before) by {
                        assert(prev.subrange(0, before.len() as int) == before);
                    }
                    if prev.len() > 0 {
                        assert(es@[prev.len() - 1] == prev[prev.len() - 1]);
                    }
                    assert forall|c: int|
                        0 <= c < col + 1 && #[trigger] ln[row as int][c] != 0x2e implies exists|k: int|
                        before.len() <= k < es@.len() && es@[k].0 == row && es@[k].1 == c by {
                        if c < col {
                            let k = choose|k: int|
                                before.len() <= k < prev.len() && prev[k].0 == row && prev[k].1 == c;
                            assert(es@[k] == prev[k]);
                        } else {
                            assert(es@[prev.len() as int].1 == c);
                        }
                    }
                }
            }
            col = col + 1;
        }
        proof {
            assert forall|r: int, c: int|
                0 <= r < row + 1 && 0 <= c < ln[r].len() && #[trigger] ln[r][c] != 0x2e implies exists|
                k: int,
            | 0 <= k < es@.len() && es@[k].0 == r && es@[k].1 == c by {
                if r < row {
                    let k = choose|k: int| 0 <= k < before.len() && before[k].0 == r && before[k].1 == c;
                    assert(es@[k] == before[k]);
                }
            }
        }
        row = row + 1;
    }
    es
}

/// The first `k` cells of `es` whose byte is (`digits`) or is not a digit.
pub open spec fn cells_where(es: Seq<(usize, usize, u8)>, digits: bool, k: int) -> Seq<
    (usize, usize, u8),
>
    decreases k,
{
    if k <= 0 {
        Seq::empty()
    } else if is_digit(es[k - 1].2) == digits {
        cells_where(es, digits, k - 1).push(es[k - 1])
    } else {
        cells_where(es, digits, k - 1)
    }
}

fn filter_cells(es: &Vec<(usize, usize, u8)>, digits: bool) -> (r: Vec<(usize, usize, u8)>)
    ensures
        r@ == cells_where(es@, digits, es@.len() as int),
{
    let mut out: Vec<(usize, usize, u8)> = Vec::new();
    let mut k: usize = 0;
    while k < es.len()
        invariant
            k <= es@.len(),
            out@ == cells_where(es@, digits, k as int),
        decreases es@.len() - k,
    {
        let e = es[k];
        if (0x30 <= e.2 && e.2 <= 0x39) == digits {
            out.push(e);
        }
        k = k + 1;
    }
    out
}

/// The cells that hold a digit.
pub fn get_all_numbers(es: &Vec<(usize, usize, u8)>) -> (r: Vec<(usize, usize, u8)>)
    ensures
        r@ == cells_where(es@, true, es@.len() as int),
{
    filter_cells(es, true)
}

/// The cells that hold no digit.
pub fn get_all_non_numbers(es: &Vec<(usize, usize, u8)>) -> (r: Vec<(usize, usize, u8)>)
    ensures
        r@ == cells_where(es@, false, es@.len() as int),
{
    filter_cells(es, false)
}

pub open spec fn is_symbol(b: u8) -> bool {
    b != 0x2e && !is_digit(b)
}

/// Cell (`r`, `c`) touches number `n`, diagonals included.
pub open spec fn adjacent(n: Number, r: int, c: int) -> bool {
    n.row as int - 1 <= r <= n.row as int + 1 && n.start as int - 1 <= c <= n.end as int
}

/// Number `n` touches a symbol.
pub open spec fn is_part(ls: Seq<Seq<u8>>, n: Number) -> bool {
    exists|r: int, c: int|
        0 <= r < ls.len() && 0 <= c < ls[r].len() && is_symbol(ls[r][c]) && #[trigger] adjacent(
            n,
            r,
            c,
        )
}

/// The window of rows or columns `lo..hi` around `a..b`, clipped to `0..len`.
fn window(a: usize, b: usize, len: usize) -> (r: (usize, usize))
    ensures
        r.0 == (if a > 0 {
            a - 1
        } else {
            0
        }),
        r.1 == (if b + 1 < len {
            b + 1
        } else {
            len as int
        }),
{
    let lo = if a > 0 {
        a - 1
    } else {
        0
    };
    let hi = if b < len && b + 1 < len {
        b + 1
    } else {
        len
    };
    (lo, hi)
}

fn touches_symbol(ls: &Vec<Vec<u8>>, n: Number) -> (r: bool)
    requires
        n.row < ls@.len(),
    ensures
        r == is_part(views(ls@), n),
{
    let ghost g = views(ls@);
    assert(g.len() == ls@.len());
    let nrows = ls.len();
    assert(n.row < nrows);
    let (r0, r1) = window(n.row, n.row + 1, nrows);
    let mut r = r0;
    while r < r1
        invariant
            g == views(ls@),
            g.len() == ls@.len(),
            r0 <= r,
            r1 <= ls@.len(),
            r0 == (if n.row > 0 {
                n.row - 1
            } else {
                0
            }),
            r1 == (if n.row + 2 < ls@.len() {
                n.row + 2
            } else {
                ls@.len() as int
            }),
            forall|rr: int, c: int|
                0 <= rr < r && 0 <= c < g[rr].len() && is_symbol(g[rr][c]) ==> !#[trigger] adjacent(
                    n,
                    rr,
                    c,
                ),
        decreases r1 - r,
    {
        let line = &ls[r];
        assert(line@ == g[r as int]);
        let (c0, c1) = window(n.start, n.end, line.len());
        let mut c = c0;
        while c < c1
            invariant
                g == views(ls@),
                g.len() == ls@.len(),
                r0 <= r < r1,
                r1 <= ls@.len(),
                r0 == (if n.row > 0 {
                    n.row - 1
                } else {
                    0
                }),
                r1 == (if n.row + 2 < ls@.len() {
                    n.row + 2
                } else {
                    ls@.len() as int
                }),
                line@ == g[r as int],
                c0 <= c,
                c1 <= line@.len(),
                c0 == (if n.start > 0 {
                    n.start - 1
                } else {
                    0
                }),
                c1 == (if n.end + 1 < line@.len() {
                    n.end + 1
                } else {
                    line@.len() as int
                }),
                forall|rr: int, cc: int|
                    0 <= rr < r && 0 <= cc < g[rr].len() && is_symbol(g[rr][cc]) ==> !#[trigger] adjacent(
                        n,
                        rr,
                        cc,
                    ),
                forall|cc: int| 0 <= cc < c && is_symbol(g[r as int][cc]) ==> !#[trigger] adjacent(n, r as int, cc),
            decreases c1 - c,
        {
            let b = line[c];
            if b != 0x2e && !(0x30 <= b && b <= 0x39) {
                assert(adjacent(n, r as int, c as int));
                return true;
            }
            c = c + 1;
        }
        r = r + 1;
    }
    false
}

/// The sum of the values of the first `k` numbers that touch a symbol.
pub open spec fn part_sum(ls: Seq<Seq<u8>>, ns: Seq<Number>, k: int) -> int
    decreases k,
{
    if k <= 0 {
        0
    } else {
        part_sum(ls, ns, k - 1) + if is_part(ls, ns[k - 1]) {
            ns[k - 1].raw as int
        } else {
            0
        }
    }
}

proof fn lemma_part_sum_grows(ls: Seq<Seq<u8>>, ns: Seq<Number>, k: int, j: int)
    requires
        0 <= k <= j,
    ensures
        part_sum(ls, ns, k) <= part_sum(ls, ns, j),
    decreases j,
{
    if j > k {
        lemma_part_sum_grows(ls, ns, k, j - 1);
    }
}

/// The sum of the part numbers; `None` exactly when the text is not ASCII, a
/// number exceeds the word size, or the sum does.
pub fn solve_1(input: &str) -> (r: Option<usize>)
    ensures
        r matches Some(v) ==> exists|ns: Seq<Number>|
            #[trigger] numbers_of(lines(input.spec_bytes()), ns) && v == part_sum(
                lines(input.spec_bytes()),
                ns,
                ns.len() as int,
            ),
        r is None ==> numbers_fail(lines(input.spec_bytes())) || exists|ns: Seq<Number>|
            #[trigger] numbers_of(lines(input.spec_bytes()), ns) && part_sum(
                lines(input.spec_bytes()),
                ns,
                ns.len() as int,
            ) > usize::MAX,
{
    let ns = match get_numbers(input) {
        Some(ns) => ns,
        None => {
            return None;
        },
    };
    let ls = split_lines(input.as_bytes());
    let ghost ln = lines(input.spec_bytes());
    let mut total: usize = 0;
    let mut k: usize = 0;
    while k < ns.len()
        invariant
            views(ls@) == ln,
            ln == lines(input.spec_bytes()),
            numbers_of(ln, ns@),
            k <= ns@.len(),
            total == part_sum(ln, ns@, k as int),
        decreases ns@.len() - k,
    {
        let n = ns[k];
        assert(n == ns@[k as int]);
        assert(n.row < ln.len());
        assert(views(ls@).len() == ls@.len());
        if touches_symbol(&ls, n) {
            total = match total.checked_add(n.raw) {
                Some(t) => t,
                None => {
                    proof {
                        lemma_part_sum_grows(ln, ns@, k + 1, ns@.len() as int);
                    }
                    return None;
                },
            };
        }
        k = k + 1;
    }
    Some(total)
}


/// Among the first `k` numbers, how many touch cell (`r`, `c`).
pub open spec fn adj_count(ns: Seq<Number>, r: int, c: int, k: int) -> nat
    decreases k,
{
    if k <= 0 {
        0
    } else {
        adj_count(ns, r, c, k - 1) + if adjacent(ns[k - 1], r, c) {
            1nat
        } else {
            0nat
        }
    }
}

/// The product of the values of those among the first `k` numbers that touch
/// cell (`r`, `c`).
pub open spec fn adj_product(ns: Seq<Number>, r: int, c: int, k: int) -> int
    decreases k,
{
    if k <= 0 {
        1
    } else {
        adj_product(ns, r, c, k - 1) * if adjacent(ns[k - 1], r, c) {
            ns[k - 1].raw as int
        } else {
            1
        }
    }
}

/// What a `*` at (`r`, `c`) is worth: the product of the two numbers it
/// touches, if it touches exactly two.
pub open spec fn gear_value(ns: Seq<Number>, r: int, c: int) -> int {
    if adj_count(ns, r, c, ns.len() as int) == 2 {
        adj_product(ns, r, c, ns.len() as int)
    } else {
        0
    }
}

/// The gears among the first `k` cells of row `r`.
pub open spec fn row_gears(ls: Seq<Seq<u8>>, ns: Seq<Number>, r: int, k: int) -> int
    decreases k,
{
    if k <= 0 {
        0
    } else {
        row_gears(ls, ns, r, k - 1) + if ls[r][k - 1] == 0x2a {
            gear_value(ns, r, k - 1)
        } else {
            0
        }
    }
}

/// The gears of the first `k` rows.
pub open spec fn gears(ls: Seq<Seq<u8>>, ns: Seq<Number>, k: int) -> int
    decreases k,
{
    if k <= 0 {
        0
    } else {
        gears(ls, ns, k - 1) + row_gears(ls, ns, k - 1, ls[k - 1].len() as int)
    }
}

proof fn lemma_adj_product_nonneg(ns: Seq<Number>, r: int, c: int, k: int)
    ensures
        adj_product(ns, r, c, k) >= 0,
    decreases k,
{
    if k > 0 {
        lemma_adj_product_nonneg(ns, r, c, k - 1);
        let p = adj_product(ns, r, c, k - 1);
        let f = if adjacent(ns[k - 1], r, c) {
            ns[k - 1].raw as int
        } else {
            1
        };
        assert(p * f >= 0) by (nonlinear_arith)
            requires
                p >= 0,
                f >= 0,
        ;
    }
}

proof fn lemma_row_gears_grows(ls: Seq<Seq<u8>>, ns: Seq<Number>, r: int, k: int, j: int)
    requires
        0 <= k <= j,
    ensures
        0 <= row_gears(ls, ns, r, k) <= row_gears(ls, ns, r, j),
    decreases j,
{
    if j > 0 {
        if j > k {
            lemma_row_gears_grows(ls, ns, r, k, j - 1);
        } else {
            lemma_row_gears_grows(ls, ns, r, j - 1, j - 1);
        }
        lemma_adj_product_nonneg(ns, r, j - 1, ns.len() as int);
    }
}

proof fn lemma_gears_grows(ls: Seq<Seq<u8>>, ns: Seq<Number>, k: int, j: int)
    requires
        0 <= k <= j,
    ensures
        0 <= gears(ls, ns, k) <= gears(ls, ns, j),
    decreases j,
{
    if j > 0 {
        if j > k {
            lemma_gears_grows(ls, ns, k, j - 1);
        } else {
            lemma_gears_grows(ls, ns, j - 1, j - 1);
        }
        lemma_row_gears_grows(ls, ns, j - 1, 0, ls[j - 1].len() as int);
    }
}

fn adjacent_exec(n: Number, r: usize, c: usize) -> (b: bool)
    ensures
        b == adjacent(n, r as int, c as int),
{
    let rows = if r >= n.row {
        r - n.row <= 1
    } else {
        n.row - r <= 1
    };
    let cols = (c >= n.start || n.start - c <= 1) && c <= n.end;
    rows && cols
}

/// What a `*` at (`r`, `c`) is worth; `None` when the product exceeds the
/// word size.
fn gear_at(ns: &Vec<Number>, r: usize, c: usize) -> (g: Option<usize>)
    ensures
        g matches Some(v) ==> v == gear_value(ns@, r as int, c as int),
        g is None ==> gear_value(ns@, r as int, c as int) > usize::MAX,
{
    let mut cnt: usize = 0;
    let mut a: usize = 0;
    let mut b: usize = 0;
    let mut k: usize = 0;
    while k < ns.len()
        invariant
            k <= ns@.len(),
            cnt == adj_count(ns@, r as int, c as int, k as int),
            cnt <= k,
            cnt <= 2 ==> adj_product(ns@, r as int, c as int, k as int) == if cnt == 0 {
                1
            } else if cnt == 1 {
                a as int
            } else {
                a * b
            },
        decreases ns@.len() - k,
    {
        let ghost p0 = adj_product(ns@, r as int, c as int, k as int);
        if adjacent_exec(ns[k], r, c) {
            if cnt == 0 {
                a = ns[k].raw;
                assert(p0 * a == a as int) by (nonlinear_arith)
                    requires
                        p0 == 1,
                ;
            } else if cnt == 1 {
                b = ns[k].raw;
            }
            cnt = cnt + 1;
        } else {
            assert(p0 * 1 == p0) by (nonlinear_arith);
        }
        k = k + 1;
    }
    if cnt == 2 {
        a.checked_mul(b)
    } else {
        Some(0)
    }
}

/// The sum of the gear values; `None` exactly when the text is not ASCII, a
/// number exceeds the word size, or the sum does.
pub fn solve_2(input: &str) -> (r: Option<usize>)
    ensures
        r matches Some(v) ==> exists|ns: Seq<Number>|
            #[trigger] numbers_of(lines(input.spec_bytes()), ns) && v == gears(
                lines(input.spec_bytes()),
                ns,
                lines(input.spec_bytes()).len() as int,
            ),
        r is None ==> numbers_fail(lines(input.spec_bytes())) || exists|ns: Seq<Number>|
            #[trigger] numbers_of(lines(input.spec_bytes()), ns) && gears(
                lines(input.spec_bytes()),
                ns,
                lines(input.spec_bytes()).len() as int,
            ) > usize::MAX,
{
    let ns = match get_numbers(input) {
        Some(ns) => ns,
        None => {
            return None;
        },
    };
    let ls = split_lines(input.as_bytes());
    let ghost ln = lines(input.spec_bytes());
    assert(views(ls@).len() == ls@.len());
    let mut total: usize = 0;
    let mut row: usize = 0;
    while row < ls.len()
        invariant
            views(ls@) == ln,
            ln == lines(input.spec_bytes()),
            numbers_of(ln, ns@),
            ls@.len() == ln.len(),
            row <= ls@.len(),
            total == gears(ln, ns@, row as int),
        decreases ls@.len() - row,
    {
        let line = &ls[row];
        assert(line@ == ln[row as int]);
        let mut sub: usize = 0;
        let mut col: usize = 0;
        while col < line.len()
            invariant
                views(ls@) == ln,
                ln == lines(input.spec_bytes()),
                numbers_of(ln, ns@),
                ls@.len() == ln.len(),
                total == gears(ln, ns@, row as int),
                row < ls@.len(),
                line@ == ln[row as int],
                col <= line@.len(),
                sub == row_gears(ln, ns@, row as int, col as int),
            decreases line@.len() - col,
        {
            if line[col] == 0x2a {
                proof {
                    lemma_row_gears_grows(ln, ns@, row as int, col + 1, ln[row as int].len() as int);
                    lemma_row_gears_grows(ln, ns@, row as int, col as int, col as int);
                    lemma_gears_grows(ln, ns@, row + 1, ln.len() as int);
                    lemma_gears_grows(ln, ns@, row as int, row as int);
                    lemma_adj_product_nonneg(ns@, row as int, col as int, ns@.len() as int);
                }
                let g = match gear_at(&ns, row, col) {
                    Some(g) => g,
                    None => {
                        return None;
                    },
                };
                sub = match sub.checked_add(g) {
                    Some(s) => s,
                    None => {
                        return None;
                    },
                };
            }
            col = col + 1;
        }
        total = match total.checked_add(sub) {
            Some(t) => t,
            None => {
                proof {
                    lemma_gears_grows(ln, ns@, row + 1, ln.len() as int);
                }
                return None;
            },
        };
        row = row + 1;
    }
    Some(total)
}

} // verus!
