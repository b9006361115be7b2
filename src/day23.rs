//! Longest hike over a trail map: the grid is contracted into a graph of
//! junctions joined by weighted corridors, and an exhaustive search over simple
//! paths of that graph finds the longest walk from the entry to the exit.
use vstd::prelude::*;
use vstd::string::StringSliceAdditionalSpecFns;

verus! {

#[derive(Debug, PartialEq, Eq, Clone, Copy, Structural)]
pub enum Tile {
    UpSlope,
    DownSlope,
    LeftSlope,
    RightSlope,
    Path,
    Forest,
}

/// A rectangular trail map, stored row by row.
#[derive(Debug, PartialEq, Eq)]
pub struct Trail {
    pub width: usize,
    pub height: usize,
    pub tiles: Vec<Tile>,
}

/// What went wrong while decoding a map.
#[derive(Debug, PartialEq, Eq, Clone, Copy, Structural)]
pub enum ParseError {
    /// The text is empty or its first row is.
    Empty,
    /// A byte that is no tile, at this offset.
    UnknownTile(usize),
    /// A line break where none belongs, or a missing one, at this offset.
    Ragged(usize),
}

pub open spec fn tile_of(b: u8, keep_slopes: bool) -> Tile {
    if b == 0x2e {
        Tile::Path
    } else if b == 0x23 {
        Tile::Forest
    } else if !keep_slopes {
        Tile::Path
    } else if b == 0x5e {
        Tile::UpSlope
    } else if b == 0x76 {
        Tile::DownSlope
    } else if b == 0x3c {
        Tile::LeftSlope
    } else {
        Tile::RightSlope
    }
}

/// The six bytes a map is drawn with: `. # ^ v < >`.
pub open spec fn is_tile_byte(b: u8) -> bool {
    b == 0x2e || b == 0x23 || b == 0x5e || b == 0x76 || b == 0x3c || b == 0x3e
}

pub open spec fn byte_of(t: Tile) -> u8 {
    match t {
        Tile::Path => 0x2e,
        Tile::Forest => 0x23,
        Tile::UpSlope => 0x5e,
        Tile::DownSlope => 0x76,
        Tile::LeftSlope => 0x3c,
        Tile::RightSlope => 0x3e,
    }
}

/// `s` is a grid of rows of `w` tile bytes, separated by single line breaks.
pub open spec fn text_with_width(s: Seq<u8>, w: nat) -> bool {
    &&& w >= 1
    &&& (s.len() + 1) % (w + 1) == 0
    &&& forall|k: int|
        0 <= k < s.len() ==> if k % (w + 1) as int == w as int {
            s[k] == 0x0a
        } else {
            is_tile_byte(#[trigger] s[k])
        }
}

pub open spec fn valid_text(s: Seq<u8>) -> bool {
    exists|w: nat| text_with_width(s, w)
}

impl Trail {
    pub open spec fn wf(&self) -> bool {
        &&& self.width >= 1
        &&& self.height >= 1
        &&& self.tiles@.len() == self.width * self.height
        &&& self.tiles@.len() + self.height - 1 <= usize::MAX
    }

    /// The text of the map: each row as its bytes, rows joined by line breaks.
    pub open spec fn text(&self) -> Seq<u8> {
        let w = self.width as int;
        Seq::new(
            (self.tiles@.len() + self.height - 1) as nat,
            |k: int|
                if k % (w + 1) == w {
                    0x0au8
                } else {
                    byte_of(self.tiles@[k - k / (w + 1)])
                },
        )
    }
}


/// `w` is where the first line break stands, or the length when there is none.
pub open spec fn first_break(s: Seq<u8>, w: nat) -> bool {
    &&& w <= s.len()
    &&& forall|i: int| 0 <= i < w ==> s[i] != 0x0a
    &&& (w == s.len() || s[w as int] == 0x0a)
}

proof fn lemma_width_unique(s: Seq<u8>, v: nat, w: nat)
    requires
        text_with_width(s, v),
        first_break(s, w),
    ensures
        v == w,
{
    if v < s.len() {
        vstd::arithmetic::div_mod::lemma_small_mod(v, v + 1);
        assert(s[v as int] == 0x0a);
        assert forall|i: int| 0 <= i < v implies s[i] != 0x0a by {
            vstd::arithmetic::div_mod::lemma_small_mod(i as nat, v + 1);
            assert(is_tile_byte(s[i]));
        }
        if w < v {
            assert(s[w as int] != 0x0a);
        }
    } else {
        if s.len() + 1 < v + 1 {
            vstd::arithmetic::div_mod::lemma_small_mod((s.len() + 1) as nat, v + 1);
        }
        assert(v == s.len());
        assert forall|i: int| 0 <= i < s.len() implies s[i] != 0x0a by {
            vstd::arithmetic::div_mod::lemma_small_mod(i as nat, v + 1);
            assert(is_tile_byte(s[i]));
        }
        if w < s.len() {
            assert(s[w as int] != 0x0a);
        }
    }
}

fn tile_from_byte(b: u8, keep_slopes: bool) -> (r: Option<Tile>)
    ensures
        r is Some <==> is_tile_byte(b),
        r matches Some(t) ==> t == tile_of(b, keep_slopes),
{
    if b == 0x2e {
        Some(Tile::Path)
    } else if b == 0x23 {
        Some(Tile::Forest)
    } else if b == 0x5e || b == 0x76 || b == 0x3c || b == 0x3e {
        if !keep_slopes {
            Some(Tile::Path)
        } else if b == 0x5e {
            Some(Tile::UpSlope)
        } else if b == 0x76 {
            Some(Tile::DownSlope)
        } else if b == 0x3c {
            Some(Tile::LeftSlope)
        } else {
            Some(Tile::RightSlope)
        }
    } else {
        None
    }
}

/// The tiles of a well-formed text `s` of width `w`: the tile at text offset
/// `k` stands at index `k - k / (w + 1)`.
pub open spec fn decodes_to(s: Seq<u8>, t: Trail, keep_slopes: bool) -> bool {
    let w = t.width as int;
    &&& t.wf()
    &&& text_with_width(s, t.width as nat)
    &&& s.len() + 1 == t.height * (w + 1)
    &&& forall|k: int|
        0 <= k < s.len() && k % (w + 1) != w ==> t.tiles@[k - k / (w + 1)] == tile_of(
            #[trigger] s[k],
            keep_slopes,
        )
}

fn decode(input: &[u8], keep_slopes: bool) -> (r: Result<Trail, ParseError>)
    ensures
        r is Ok <==> valid_text(input@),
        r matches Ok(t) ==> decodes_to(input@, t, keep_slopes),
{
    let n = input.len();
    let mut w: usize = 0;
    while w < n && input[w] != 0x0a
        invariant
            w <= n,
            n == input@.len(),
            forall|i: int| 0 <= i < w ==> input@[i] != 0x0a,
        decreases n - w,
    {
        w = w + 1;
    }
    assert(first_break(input@, w as nat));
    if w == 0 {
        proof {
            if valid_text(input@) {
                let v = choose|v: nat| text_with_width(input@, v);
                lemma_width_unique(input@, v, 0);
            }
        }
        return Err(ParseError::Empty);
    }
    let mut tiles: Vec<Tile> = Vec::new();
    let mut row: usize = 0;
    let mut col: usize = 0;
    let mut k: usize = 0;
    while k < n
        invariant
            1 <= w <= n,
            n == input@.len(),
            first_break(input@, w as nat),
            k <= n,
            col <= w,
            row <= k,
            k == row * (w + 1) + col,
            tiles@.len() == k - row,
            forall|i: int|
                0 <= i < k ==> if i % (w + 1) as int == w as int {
                    input@[i] == 0x0a
                } else {
                    is_tile_byte(#[trigger] input@[i])
                },
            forall|i: int|
                0 <= i < k && i % (w + 1) as int != w as int ==> 0 <= i - i / (w + 1) as int
                    && i - i / (w + 1) as int + 1 <= tiles@.len() && tiles@[i - i / (w + 1) as int] == tile_of(
                    #[trigger] input@[i],
                    keep_slopes,
                ),
        decreases n - k,
    {
        proof {
            vstd::arithmetic::div_mod::lemma_fundamental_div_mod_converse(
                k as int,
                (w + 1) as int,
                row as int,
                col as int,
            );
        }
        let ghost r0 = row as int;
        let ghost c0 = col as int;
        let b = input[k];
        if col == w {
            if b != 0x0a {
                proof {
                    if valid_text(input@) {
                        let v = choose|v: nat| text_with_width(input@, v);
                        lemma_width_unique(input@, v, w as nat);
                        assert(input@[k as int] == 0x0a);
                    }
                }
                return Err(ParseError::Ragged(k));
            }
            row = row + 1;
            col = 0;
        } else {
            match tile_from_byte(b, keep_slopes) {
                Some(t) => {
                    tiles.push(t);
                    col = col + 1;
                },
                None => {
                    proof {
                        if valid_text(input@) {
                            let v = choose|v: nat| text_with_width(input@, v);
                            lemma_width_unique(input@, v, w as nat);
                            assert(is_tile_byte(input@[k as int]));
                        }
                    }
                    if b == 0x0a {
                        return Err(ParseError::Ragged(k));
                    }
                    return Err(ParseError::UnknownTile(k));
                },
            }
        }
        k = k + 1;
        proof {
            assert(k == row * (w + 1) + col) by (nonlinear_arith)
                requires
                    k - 1 == r0 * (w + 1) + c0,
                    (row == r0 + 1 && col == 0 && c0 == w) || (row == r0 && col == c0 + 1),
            ;
        }
    }
    if col != w {
        proof {
            if valid_text(input@) {
                let v = choose|v: nat| text_with_width(input@, v);
                lemma_width_unique(input@, v, w as nat);
                vstd::arithmetic::div_mod::lemma_fundamental_div_mod_converse(
                    (n + 1) as int,
                    (w + 1) as int,
                    row as int,
                    (col + 1) as int,
                );
            }
        }
        return Err(ParseError::Ragged(n));
    }
    proof {
        assert(row < n) by (nonlinear_arith)
            requires
                n == row * (w + 1) + w,
                w >= 1,
        ;
        assert(n + 1 == (row + 1) * (w + 1)) by (nonlinear_arith)
            requires
                n == row * (w + 1) + w,
        ;
        vstd::arithmetic::div_mod::lemma_fundamental_div_mod_converse(
            (n + 1) as int,
            (w + 1) as int,
            (row + 1) as int,
            0,
        );
        assert(tiles@.len() == w * (row + 1)) by (nonlinear_arith)
            requires
                tiles@.len() == n - row,
                n == row * (w + 1) + w,
        ;
    }
    let t = Trail { width: w, height: row + 1, tiles };
    assert(text_with_width(input@, w as nat));
    Ok(t)
}


/// The rows of a map text: the text without one final line break, if it
/// ends with one.
pub open spec fn map_body(s: Seq<u8>) -> Seq<u8> {
    if s.len() > 0 && s.last() == 0x0a {
        s.drop_last()
    } else {
        s
    }
}

fn body_of(b: &[u8]) -> (r: &[u8])
    ensures
        r@ == map_body(b@),
{
    if b.len() > 0 && b[b.len() - 1] == 0x0a {
        let (head, _) = b.split_at(b.len() - 1);
        assert(head@ =~= b@.drop_last());
        head
    } else {
        b
    }
}

/// Decodes a map, slopes included; one final line break is allowed. Fails on
/// a byte outside `. # ^ v < >` and line breaks, and on rows of unequal or
/// zero length.
pub fn parse(input: &str) -> (r: Result<Trail, ParseError>)
    ensures
        r is Ok <==> valid_text(map_body(input.spec_bytes())),
        r matches Ok(t) ==> decodes_to(map_body(input.spec_bytes()), t, true),
{
    decode(body_of(input.as_bytes()), true)
}

/// Decodes a map with every slope read as a plain path; one final line break
/// is allowed.
pub fn parse_for_part2(input: &str) -> (r: Result<Trail, ParseError>)
    ensures
        r is Ok <==> valid_text(map_body(input.spec_bytes())),
        r matches Ok(t) ==> decodes_to(map_body(input.spec_bytes()), t, false),
{
    decode(body_of(input.as_bytes()), false)
}

fn tile_byte(t: Tile) -> (r: u8)
    ensures
        r == byte_of(t),
{
    match t {
        Tile::Path => 0x2e,
        Tile::Forest => 0x23,
        Tile::UpSlope => 0x5e,
        Tile::DownSlope => 0x76,
        Tile::LeftSlope => 0x3c,
        Tile::RightSlope => 0x3e,
    }
}

/// Writes a map back as text: rows of tile bytes joined by line breaks.
pub fn to_text(t: &Trail) -> (r: Vec<u8>)
    requires
        t.wf(),
    ensures
        r@ == t.text(),
{
    let w = t.width;
    let h = t.height;
    let n = t.tiles.len() + (h - 1);
    let mut r: Vec<u8> = Vec::new();
    let mut row: usize = 0;
    let mut col: usize = 0;
    let mut k: usize = 0;
    while k < n
        invariant
            t.wf(),
            w == t.width,
            h == t.height,
            n == t.tiles@.len() + h - 1,
            n == t.text().len(),
            k <= n,
            col <= w,
            k == row * (w + 1) + col,
            r@.len() == k,
            forall|i: int| 0 <= i < k ==> r@[i] == t.text()[i],
        decreases n - k,
    {
        proof {
            vstd::arithmetic::div_mod::lemma_fundamental_div_mod_converse(
                k as int,
                (w + 1) as int,
                row as int,
                col as int,
            );
        }
        let ghost r0 = row as int;
        let ghost c0 = col as int;
        if col == w {
            r.push(0x0a);
            row = row + 1;
            col = 0;
        } else {
            proof {
                assert(k - row < t.tiles@.len()) by (nonlinear_arith)
                    requires
                        k == row * (w + 1) + col,
                        col < w,
                        k < n,
                        n == w * h + h - 1,
                        t.tiles@.len() == w * h,
                ;
            }
            r.push(tile_byte(t.tiles[k - row]));
            col = col + 1;
        }
        k = k + 1;
        proof {
            assert(k == row * (w + 1) + col) by (nonlinear_arith)
                requires
                    k - 1 == r0 * (w + 1) + c0,
                    (row == r0 + 1 && col == 0 && c0 == w) || (row == r0 && col == c0 + 1),
            ;
        }
    }
    assert(r@ =~= t.text());
    r
}

/// Decoding a map and writing it back gives the text that was decoded.
pub proof fn lemma_parse_round_trip(s: Seq<u8>, t: Trail)
    requires
        decodes_to(s, t, true),
    ensures
        t.text() == s,
{
    let w = t.width as int;
    let h = t.height as int;
    assert(t.tiles@.len() + h - 1 == s.len()) by (nonlinear_arith)
        requires
            t.tiles@.len() == w * h,
            s.len() + 1 == h * (w + 1),
    ;
    assert forall|k: int| 0 <= k < s.len() implies t.text()[k] == s[k] by {
        if k % (w + 1) != w {
            assert(is_tile_byte(s[k]));
        }
    }
    assert(t.text() =~= s);
}


#[derive(Debug, PartialEq, Eq, Clone, Copy, Structural)]
pub enum Dir {
    Up,
    Down,
    Left,
    Right,
}

/// Whether slopes must be crossed in their own direction.
#[derive(Debug, PartialEq, Eq, Clone, Copy, Structural)]
pub enum Mode {
    Constrained,
    Unconstrained,
}

/// The cell next to `id` in direction `d`, where the map has one. Cells are
/// numbered row by row.
pub open spec fn neighbor(t: Trail, id: int, d: Dir) -> Option<int> {
    let w = t.width as int;
    match d {
        Dir::Up => if id >= w {
            Some(id - w)
        } else {
            None
        },
        Dir::Down => if id + w < t.tiles@.len() {
            Some(id + w)
        } else {
            None
        },
        Dir::Left => if id % w != 0 {
            Some(id - 1)
        } else {
            None
        },
        Dir::Right => if id % w != w - 1 {
            Some(id + 1)
        } else {
            None
        },
    }
}

pub open spec fn is_open(t: Trail, id: int) -> bool {
    t.tiles@[id] != Tile::Forest
}

/// A slope lets a walker cross it in its own direction only.
pub open spec fn lets_through(tile: Tile, d: Dir) -> bool {
    match tile {
        Tile::UpSlope => d == Dir::Up,
        Tile::DownSlope => d == Dir::Down,
        Tile::LeftSlope => d == Dir::Left,
        Tile::RightSlope => d == Dir::Right,
        _ => true,
    }
}

/// A step from cell `id` in direction `d` is legal: it stays on the map, lands
/// on no forest, and in constrained mode leaves and enters slopes only along
/// their direction.
pub open spec fn can_step(t: Trail, mode: Mode, id: int, d: Dir) -> bool {
    match neighbor(t, id, d) {
        None => false,
        Some(to) => is_open(t, to) && (mode == Mode::Unconstrained || (lets_through(
            t.tiles@[id],
            d,
        ) && lets_through(t.tiles@[to], d))),
    }
}

pub open spec fn open_toward(t: Trail, id: int, d: Dir) -> nat {
    match neighbor(t, id, d) {
        Some(to) => if is_open(t, to) {
            1
        } else {
            0
        },
        None => 0,
    }
}

pub open spec fn open_neighbors(t: Trail, id: int) -> nat {
    open_toward(t, id, Dir::Up) + open_toward(t, id, Dir::Down) + open_toward(t, id, Dir::Left)
        + open_toward(t, id, Dir::Right)
}

/// A junction: an endpoint of the hike, or an open cell where three or four
/// open cells meet.
pub open spec fn is_junction(t: Trail, entry: int, exit: int, id: int) -> bool {
    id == entry || id == exit || (is_open(t, id) && open_neighbors(t, id) >= 3)
}

/// Where a corridor walk ends.
#[derive(Debug, PartialEq, Eq, Clone, Copy, Structural)]
pub enum Corridor {
    /// At junction `to`, after `len` steps.
    Reached { to: usize, len: usize },
    /// At a cell with no legal step onward.
    DeadEnd,
    /// Still between junctions after more steps than the map has cells.
    Lost,
}

/// The first legal direction out of `cur` that does not lead back to `prev`.
pub open spec fn onward(t: Trail, mode: Mode, prev: int, cur: int) -> Option<Dir> {
    if can_step(t, mode, cur, Dir::Up) && neighbor(t, cur, Dir::Up) != Some(prev) {
        Some(Dir::Up)
    } else if can_step(t, mode, cur, Dir::Down) && neighbor(t, cur, Dir::Down) != Some(prev) {
        Some(Dir::Down)
    } else if can_step(t, mode, cur, Dir::Left) && neighbor(t, cur, Dir::Left) != Some(prev) {
        Some(Dir::Left)
    } else if can_step(t, mode, cur, Dir::Right) && neighbor(t, cur, Dir::Right) != Some(prev) {
        Some(Dir::Right)
    } else {
        None
    }
}

/// Walks a corridor that has reached `cur` from `prev` after `steps` steps, for
/// at most `fuel` more steps, until it stands on a junction.
pub open spec fn walk(
    t: Trail,
    mode: Mode,
    entry: int,
    exit: int,
    prev: int,
    cur: int,
    steps: nat,
    fuel: nat,
) -> Corridor
    decreases fuel,
{
    if is_junction(t, entry, exit, cur) {
        Corridor::Reached { to: cur as usize, len: steps as usize }
    } else if fuel == 0 {
        Corridor::Lost
    } else {
        match onward(t, mode, prev, cur) {
            None => Corridor::DeadEnd,
            Some(d) => walk(
                t,
                mode,
                entry,
                exit,
                cur,
                neighbor(t, cur, d).unwrap(),
                steps + 1,
                (fuel - 1) as nat,
            ),
        }
    }
}

/// The corridor that leaves cell `from` in direction `d`, walked for at most as
/// many steps as the map has cells.
pub open spec fn corridor(t: Trail, mode: Mode, entry: int, exit: int, from: int, d: Dir) -> Corridor {
    walk(t, mode, entry, exit, from, neighbor(t, from, d).unwrap(), 1, (t.tiles@.len() - 1) as nat)
}

fn neighbor_of(t: &Trail, id: usize, d: Dir) -> (r: Option<usize>)
    requires
        t.wf(),
        id < t.tiles@.len(),
    ensures
        r matches Some(to) ==> neighbor(*t, id as int, d) == Some(to as int) && to < t.tiles@.len(),
        r is None ==> neighbor(*t, id as int, d) is None,
{
    let w = t.width;
    assert(t.tiles@.len() >= w) by (nonlinear_arith)
        requires
            t.tiles@.len() == w * t.height,
            t.height >= 1,
    ;
    match d {
        Dir::Up => if id >= w {
            Some(id - w)
        } else {
            None
        },
        Dir::Down => if id < t.tiles.len() - w {
            Some(id + w)
        } else {
            None
        },
        Dir::Left => if id % w != 0 {
            proof {
                if id == 0 {
                    vstd::arithmetic::div_mod::lemma_small_mod(0, w as nat);
                }
            }
            Some(id - 1)
        } else {
            None
        },
        Dir::Right => if id % w != w - 1 {
            proof {
                assert(id + 1 < t.tiles@.len()) by (nonlinear_arith)
                    requires
                        id < t.tiles@.len(),
                        t.tiles@.len() == w * t.height,
                        id % w != w - 1,
                        w >= 1,
                {
                    vstd::arithmetic::div_mod::lemma_fundamental_div_mod(id as int, w as int);
                    vstd::arithmetic::div_mod::lemma_mod_bound(id as int, w as int);
                    if id + 1 >= t.tiles@.len() {
                        vstd::arithmetic::div_mod::lemma_fundamental_div_mod_converse(
                            id as int,
                            w as int,
                            (t.height - 1) as int,
                            (w - 1) as int,
                        );
                    }
                }
            }
            Some(id + 1)
        } else {
            None
        },
    }
}

fn lets_through_exec(tile: Tile, d: Dir) -> (r: bool)
    ensures
        r == lets_through(tile, d),
{
    match tile {
        Tile::UpSlope => d == Dir::Up,
        Tile::DownSlope => d == Dir::Down,
        Tile::LeftSlope => d == Dir::Left,
        Tile::RightSlope => d == Dir::Right,
        _ => true,
    }
}

/// The cell a legal step from `id` in direction `d` lands on, if the step is
/// legal.
pub fn get_valid_neighbor(t: &Trail, mode: Mode, id: usize, d: Dir) -> (r: Option<usize>)
    requires
        t.wf(),
        id < t.tiles@.len(),
    ensures
        r is Some <==> can_step(*t, mode, id as int, d),
        r matches Some(to) ==> neighbor(*t, id as int, d) == Some(to as int) && to
            < t.tiles@.len(),
{
    match neighbor_of(t, id, d) {
        None => None,
        Some(to) => {
            if t.tiles[to] == Tile::Forest {
                None
            } else if mode == Mode::Unconstrained || (lets_through_exec(t.tiles[id], d)
                && lets_through_exec(t.tiles[to], d)) {
                Some(to)
            } else {
                None
            }
        },
    }
}

/// The cell a legal step in direction `d` lands on, if there is one.
pub open spec fn step_to(t: Trail, mode: Mode, id: int, d: Dir) -> Seq<usize> {
    if can_step(t, mode, id, d) {
        seq![neighbor(t, id, d).unwrap() as usize]
    } else {
        Seq::empty()
    }
}

/// The cells that a legal step from `id` lands on: up, down, left, right.
pub fn get_valid_neighbors(t: &Trail, mode: Mode, id: usize) -> (r: Vec<usize>)
    requires
        t.wf(),
        id < t.tiles@.len(),
    ensures
        r@ == step_to(*t, mode, id as int, Dir::Up) + step_to(*t, mode, id as int, Dir::Down)
            + step_to(*t, mode, id as int, Dir::Left) + step_to(*t, mode, id as int, Dir::Right),
{
    let mut r: Vec<usize> = Vec::new();
    if let Some(n) = get_valid_neighbor(t, mode, id, Dir::Up) {
        r.push(n);
    }
    assert(r@ =~= step_to(*t, mode, id as int, Dir::Up));
    let ghost r1 = r@;
    if let Some(n) = get_valid_neighbor(t, mode, id, Dir::Down) {
        r.push(n);
    }
    assert(r@ =~= r1 + step_to(*t, mode, id as int, Dir::Down));
    let ghost r2 = r@;
    if let Some(n) = get_valid_neighbor(t, mode, id, Dir::Left) {
        r.push(n);
    }
    assert(r@ =~= r2 + step_to(*t, mode, id as int, Dir::Left));
    let ghost r3 = r@;
    if let Some(n) = get_valid_neighbor(t, mode, id, Dir::Right) {
        r.push(n);
    }
    assert(r@ =~= r3 + step_to(*t, mode, id as int, Dir::Right));
    r
}

fn open_toward_exec(t: &Trail, id: usize, d: Dir) -> (r: usize)
    requires
        t.wf(),
        id < t.tiles@.len(),
    ensures
        r == open_toward(*t, id as int, d),
{
    match neighbor_of(t, id, d) {
        None => 0,
        Some(to) => if t.tiles[to] != Tile::Forest {
            1
        } else {
            0
        },
    }
}

fn junction_at(t: &Trail, entry: usize, exit: usize, id: usize) -> (r: bool)
    requires
        t.wf(),
        id < t.tiles@.len(),
    ensures
        r == is_junction(*t, entry as int, exit as int, id as int),
{
    if id == entry || id == exit {
        return true;
    }
    if t.tiles[id] == Tile::Forest {
        return false;
    }
    let n = open_toward_exec(t, id, Dir::Up) + open_toward_exec(t, id, Dir::Down)
        + open_toward_exec(t, id, Dir::Left) + open_toward_exec(t, id, Dir::Right);
    n >= 3
}

fn onward_exec(t: &Trail, mode: Mode, prev: usize, cur: usize) -> (r: Option<(Dir, usize)>)
    requires
        t.wf(),
        cur < t.tiles@.len(),
    ensures
        r is None ==> onward(*t, mode, prev as int, cur as int) is None,
        r matches Some((d, to)) ==> onward(*t, mode, prev as int, cur as int) == Some(d)
            && neighbor(*t, cur as int, d) == Some(to as int) && to < t.tiles@.len(),
{
    if let Some(to) = get_valid_neighbor(t, mode, cur, Dir::Up) {
        if to != prev {
            return Some((Dir::Up, to));
        }
    }
    if let Some(to) = get_valid_neighbor(t, mode, cur, Dir::Down) {
        if to != prev {
            return Some((Dir::Down, to));
        }
    }
    if let Some(to) = get_valid_neighbor(t, mode, cur, Dir::Left) {
        if to != prev {
            return Some((Dir::Left, to));
        }
    }
    if let Some(to) = get_valid_neighbor(t, mode, cur, Dir::Right) {
        if to != prev {
            return Some((Dir::Right, to));
        }
    }
    None
}

/// Follows the corridor that leaves junction cell `from` onto cell `first`.
fn walk_corridor(t: &Trail, mode: Mode, entry: usize, exit: usize, from: usize, first: usize) -> (r:
    Corridor)
    requires
        t.wf(),
        first < t.tiles@.len(),
    ensures
        r == walk(
            *t,
            mode,
            entry as int,
            exit as int,
            from as int,
            first as int,
            1,
            (t.tiles@.len() - 1) as nat,
        ),
{
    let mut prev = from;
    let mut cur = first;
    let mut steps: usize = 1;
    let mut fuel: usize = t.tiles.len() - 1;
    loop
        invariant
            t.wf(),
            cur < t.tiles@.len(),
            steps + fuel == t.tiles@.len(),
            walk(*t, mode, entry as int, exit as int, prev as int, cur as int, steps as nat, fuel as nat)
                == walk(
                *t,
                mode,
                entry as int,
                exit as int,
                from as int,
                first as int,
                1,
                (t.tiles@.len() - 1) as nat,
            ),
        decreases fuel,
    {
        if junction_at(t, entry, exit, cur) {
            return Corridor::Reached { to: cur, len: steps };
        }
        if fuel == 0 {
            return Corridor::Lost;
        }
        match onward_exec(t, mode, prev, cur) {
            None => {
                return Corridor::DeadEnd;
            },
            Some((_, to)) => {
                prev = cur;
                cur = to;
                steps = steps + 1;
                fuel = fuel - 1;
            },
        }
    }
}


pub open spec fn dir_at(k: int) -> Dir {
    if k == 0 {
        Dir::Up
    } else if k == 1 {
        Dir::Down
    } else if k == 2 {
        Dir::Left
    } else {
        Dir::Right
    }
}

proof fn lemma_walk_reached(
    t: Trail,
    mode: Mode,
    entry: int,
    exit: int,
    prev: int,
    cur: int,
    steps: nat,
    fuel: nat,
)
    requires
        t.wf(),
        0 <= cur < t.tiles@.len(),
        steps + fuel <= t.tiles@.len(),
    ensures
        walk(t, mode, entry, exit, prev, cur, steps, fuel) matches Corridor::Reached { to, len }
            ==> is_junction(t, entry, exit, to as int) && to < t.tiles@.len() && steps <= len
            <= steps + fuel,
    decreases fuel,
{
    if !is_junction(t, entry, exit, cur) && fuel > 0 {
        if let Some(d) = onward(t, mode, prev, cur) {
            let next = neighbor(t, cur, d).unwrap();
            lemma_neighbor_in_map(t, cur, d);
            lemma_walk_reached(t, mode, entry, exit, cur, next, steps + 1, (fuel - 1) as nat);
        }
    }
}

proof fn lemma_neighbor_in_map(t: Trail, id: int, d: Dir)
    requires
        t.wf(),
        0 <= id < t.tiles@.len(),
    ensures
        neighbor(t, id, d) matches Some(to) ==> 0 <= to < t.tiles@.len(),
{
    let w = t.width as int;
    if d == Dir::Left && id % w != 0 {
        if id == 0 {
            vstd::arithmetic::div_mod::lemma_small_mod(0, w as nat);
        }
    }
    if d == Dir::Right && id % w != w - 1 {
        assert(id + 1 < t.tiles@.len()) by (nonlinear_arith)
            requires
                id < t.tiles@.len(),
                t.tiles@.len() == w * t.height,
                id % w != w - 1,
                w >= 1,
                0 <= id,
        {
            vstd::arithmetic::div_mod::lemma_fundamental_div_mod(id, w);
            vstd::arithmetic::div_mod::lemma_mod_bound(id, w);
            if id + 1 >= t.tiles@.len() {
                vstd::arithmetic::div_mod::lemma_fundamental_div_mod_converse(
                    id,
                    w,
                    (t.height - 1) as int,
                    w - 1,
                );
            }
        }
    }
}

proof fn lemma_distinct_below(s: Seq<usize>, m: nat)
    requires
        s.no_duplicates(),
        forall|i: int| 0 <= i < s.len() ==> s[i] < m,
    ensures
        s.len() <= m,
{
    let u = s.map_values(|x: usize| x as int);
    assert(u.no_duplicates());
    u.unique_seq_to_set();
    vstd::set_lib::lemma_int_range(0, m as int);
    assert(u.to_set().subset_of(vstd::set_lib::set_int_range(0, m as int)));
    vstd::set_lib::lemma_len_subset(u.to_set(), vstd::set_lib::set_int_range(0, m as int));
}

/// The sole open cell among the `w` cells from `start` on.
pub open spec fn sole_gap(t: Trail, start: int, id: int) -> bool {
    &&& start <= id < start + t.width
    &&& is_open(t, id)
    &&& forall|j: int| start <= j < start + t.width && j != id ==> !is_open(t, j)
}

/// The entry: the only gap in the top row.
pub open spec fn is_entry(t: Trail, id: int) -> bool {
    sole_gap(t, 0, id)
}

/// The exit: the only gap in the bottom row.
pub open spec fn is_exit(t: Trail, id: int) -> bool {
    sole_gap(t, t.tiles@.len() - t.width, id)
}

fn find_gap(t: &Trail, start: usize) -> (r: Option<usize>)
    requires
        t.wf(),
        start + t.width <= t.tiles@.len(),
    ensures
        r matches Some(id) ==> sole_gap(*t, start as int, id as int),
        r is None ==> forall|id: int| !sole_gap(*t, start as int, id),
{
    let mut found: Option<usize> = None;
    let mut j = start;
    let end = start + t.width;
    while j < end
        invariant
            t.wf(),
            end == start + t.width,
            end <= t.tiles@.len(),
            start <= j <= end,
            found matches Some(f) ==> start <= f < j && is_open(*t, f as int) && forall|i: int|
                start <= i < j && i != f ==> !is_open(*t, i),
            found is None ==> forall|i: int| start <= i < j ==> !is_open(*t, i),
        decreases end - j,
    {
        if t.tiles[j] != Tile::Forest {
            if found.is_some() {
                let ghost f = found.unwrap();
                assert(is_open(*t, j as int));
                assert(is_open(*t, f as int));
                assert forall|id: int| !sole_gap(*t, start as int, id) by {
                    if sole_gap(*t, start as int, id) {
                        assert(id == f || id == j);
                    }
                }
                return None;
            }
            found = Some(j);
        }
        j = j + 1;
    }
    found
}

/// What keeps a map from being contracted.
#[derive(Debug, PartialEq, Eq, Clone, Copy, Structural)]
pub enum BuildError {
    /// The top row has no gap, or more than one.
    NoEntry,
    /// The bottom row has no gap, or more than one.
    NoExit,
    /// A corridor from this junction cell never reaches another junction.
    Lost(usize),
}

/// The junction graph of a map: junction cells, and for each junction the
/// corridors that leave it, as (index of the junction reached, length).
#[derive(Debug, PartialEq, Eq)]
pub struct Graph {
    pub entry: usize,
    pub exit: usize,
    pub cells: usize,
    pub junctions: Vec<usize>,
    pub edges: Vec<Vec<(usize, usize)>>,
}

/// Edge `e` out of junction `i` leads to another junction of `js`, and its
/// length is positive and at most the number of cells.
pub open spec fn edge_fits(cells: nat, js: Seq<usize>, i: int, e: (usize, usize)) -> bool {
    &&& e.0 < js.len()
    &&& e.0 != i
    &&& 1 <= e.1 <= cells
}

/// Edge `e` out of junction `i` is a corridor of the map.
pub open spec fn edge_sound(
    t: Trail,
    mode: Mode,
    entry: int,
    exit: int,
    js: Seq<usize>,
    i: int,
    e: (usize, usize),
) -> bool {
    exists|d: Dir|
        #[trigger] can_step(t, mode, js[i] as int, d) && corridor(t, mode, entry, exit, js[i] as int, d)
            == (Corridor::Reached { to: js[e.0 as int], len: e.1 })
}

/// The corridor out of junction `i` in direction `d`, if it may be taken,
/// ends somewhere: at a dead end, back at `i`, or at a junction of `js` to
/// which `out` lists an edge of its length.
pub open spec fn corridor_listed(
    t: Trail,
    mode: Mode,
    entry: int,
    exit: int,
    js: Seq<usize>,
    i: int,
    d: Dir,
    out: Seq<(usize, usize)>,
) -> bool {
    can_step(t, mode, js[i] as int, d) ==> match corridor(t, mode, entry, exit, js[i] as int, d) {
        Corridor::Reached { to, len } => to == js[i] || exists|j: int|
            0 <= j < js.len() && js[j] == to && out.contains((j as usize, len)),
        Corridor::DeadEnd => true,
        Corridor::Lost => false,
    }
}

/// Some edge of `es` from a junction found before junction `k` leads to it.
pub open spec fn entered_in(es: Seq<Vec<(usize, usize)>>, k: int) -> bool {
    exists|i: int, e: int|
        0 <= i < k && i < es.len() && 0 <= e < es[i]@.len() && (#[trigger] es[i]@[e]).0 == k
}

impl Graph {
    pub open spec fn wf(&self) -> bool {
        &&& self.junctions@.len() == self.edges@.len()
        &&& self.junctions@.len() >= 1
        &&& self.junctions@.len() <= self.cells
        &&& self.junctions@.no_duplicates()
        &&& forall|i: int, e: int|
            0 <= i < self.edges@.len() && 0 <= e < self.edges@[i]@.len() ==> edge_fits(
                self.cells as nat,
                self.junctions@,
                i,
                #[trigger] self.edges@[i]@[e],
            )
    }

    /// Every edge is a corridor of the map, and every corridor that leaves a
    /// junction and ends at another one is an edge.
    pub open spec fn contracts(&self, t: Trail, mode: Mode) -> bool {
        let js = self.junctions@;
        &&& self.wf()
        &&& t.wf()
        &&& self.cells == t.tiles@.len()
        &&& is_entry(t, self.entry as int)
        &&& is_exit(t, self.exit as int)
        &&& js[0] == self.entry
        &&& forall|k: int|
            0 <= k < js.len() ==> js[k] < self.cells && is_junction(
                t,
                self.entry as int,
                self.exit as int,
                #[trigger] js[k] as int,
            )
        &&& forall|i: int, e: int|
            0 <= i < self.edges@.len() && 0 <= e < self.edges@[i]@.len() ==> edge_sound(
                t,
                mode,
                self.entry as int,
                self.exit as int,
                js,
                i,
                #[trigger] self.edges@[i]@[e],
            )
        &&& forall|i: int, d: Dir|
            0 <= i < js.len() ==> #[trigger] corridor_listed(
                t,
                mode,
                self.entry as int,
                self.exit as int,
                js,
                i,
                d,
                self.edges@[i]@,
            )
    }

    /// An edge from a junction found before junction `k` leads to it.
    pub open spec fn entered(&self, k: int) -> bool {
        entered_in(self.edges@, k)
    }

    /// Every junction other than the entry is reached by an edge from an
    /// earlier junction, and the entry has an edge out unless it is the only
    /// junction.
    pub open spec fn no_isolated_junction(&self) -> bool {
        &&& forall|k: int| 1 <= k < self.junctions@.len() ==> #[trigger] self.entered(k)
        &&& self.junctions@.len() > 1 ==> self.edges@[0]@.len() > 0
    }
}

fn index_of(v: &Vec<usize>, x: usize) -> (r: Option<usize>)
    ensures
        r matches Some(k) ==> k < v@.len() && v@[k as int] == x,
        r is None ==> forall|k: int| 0 <= k < v@.len() ==> v@[k] != x,
{
    let mut k: usize = 0;
    while k < v.len()
        invariant
            k <= v@.len(),
            forall|i: int| 0 <= i < k ==> v@[i] != x,
        decreases v@.len() - k,
    {
        if v[k] == x {
            return Some(k);
        }
        k = k + 1;
    }
    None
}


/// Some edge of `out` leads to junction `q`.
pub open spec fn targeted(out: Seq<(usize, usize)>, q: int) -> bool {
    exists|e: int| 0 <= e < out.len() && (#[trigger] out[e]).0 == q
}

/// Listing and soundness facts about junction `i` survive when junctions are
/// appended and edges are appended to its list.
proof fn lemma_extend(
    t: Trail,
    mode: Mode,
    entry: int,
    exit: int,
    cells: nat,
    js1: Seq<usize>,
    js2: Seq<usize>,
    i: int,
    out1: Seq<(usize, usize)>,
    out2: Seq<(usize, usize)>,
)
    requires
        js1.len() <= js2.len(),
        js2.subrange(0, js1.len() as int) == js1,
        0 <= i < js1.len(),
        out1.len() <= out2.len(),
        out2.subrange(0, out1.len() as int) == out1,
    ensures
        forall|d: Dir|
            #[trigger] corridor_listed(t, mode, entry, exit, js1, i, d, out1) ==> corridor_listed(
                t,
                mode,
                entry,
                exit,
                js2,
                i,
                d,
                out2,
            ),
        forall|e: (usize, usize)|
            #[trigger] edge_fits(cells, js1, i, e) ==> edge_fits(cells, js2, i, e) && (edge_sound(
                t,
                mode,
                entry,
                exit,
                js1,
                i,
                e,
            ) ==> edge_sound(t, mode, entry, exit, js2, i, e)),
{
    assert(js2[i] == js1[i]);
    assert forall|d: Dir|
        #[trigger] corridor_listed(t, mode, entry, exit, js1, i, d, out1) implies corridor_listed(
        t,
        mode,
        entry,
        exit,
        js2,
        i,
        d,
        out2,
    ) by {
        if let Corridor::Reached { to, len } = corridor(t, mode, entry, exit, js1[i] as int, d) {
            if to != js1[i] && can_step(t, mode, js1[i] as int, d) {
                let q = choose|q: int|
                    0 <= q < js1.len() && js1[q] == to && out1.contains((q as usize, len));
                assert(js2[q] == js1[q]);
                let e = choose|e: int| 0 <= e < out1.len() && out1[e] == (q as usize, len);
                assert(out2[e] == out1[e]);
            }
        }
    }
    assert forall|e: (usize, usize)| #[trigger] edge_fits(cells, js1, i, e) implies edge_fits(
        cells,
        js2,
        i,
        e,
    ) && (edge_sound(t, mode, entry, exit, js1, i, e) ==> edge_sound(
        t,
        mode,
        entry,
        exit,
        js2,
        i,
        e,
    )) by {
        assert(js2[e.0 as int] == js1[e.0 as int]);
    }
}

/// A corridor that may be taken from cell `a` ends at junction `b`.
pub open spec fn corridor_step(t: Trail, mode: Mode, entry: int, exit: int, a: int, b: int) -> bool {
    exists|d: Dir|
        can_step(t, mode, a, d) && (#[trigger] corridor(t, mode, entry, exit, a, d) matches Corridor::Reached {
            to,
            len,
        } && to == b)
}

/// `path` starts at the entry, and each of its junctions is the end of a
/// corridor taken from the one before.
pub open spec fn junction_path(t: Trail, mode: Mode, entry: int, exit: int, path: Seq<int>) -> bool {
    &&& path.len() >= 1
    &&& path[0] == entry
    &&& forall|i: int|
        0 <= i < path.len() - 1 ==> #[trigger] corridor_step(t, mode, entry, exit, path[i], path[i + 1])
}

/// Junction `c` is reached from the entry by a chain of corridors.
pub open spec fn reached_junction(t: Trail, mode: Mode, entry: int, exit: int, c: int) -> bool {
    exists|path: Seq<int>| #[trigger] junction_path(t, mode, entry, exit, path) && path.last() == c
}

proof fn lemma_path_extends(t: Trail, mode: Mode, entry: int, exit: int, a: int, b: int)
    requires
        reached_junction(t, mode, entry, exit, a),
        corridor_step(t, mode, entry, exit, a, b),
    ensures
        reached_junction(t, mode, entry, exit, b),
{
    let p = choose|path: Seq<int>| #[trigger] junction_path(t, mode, entry, exit, path) && path.last() == a;
    let q = p.push(b);
    assert forall|i: int| 0 <= i < q.len() - 1 implies #[trigger] corridor_step(
        t,
        mode,
        entry,
        exit,
        q[i],
        q[i + 1],
    ) by {
        if i < p.len() - 1 {
            assert(q[i] == p[i] && q[i + 1] == p[i + 1]);
        } else {
            assert(q[i] == a && q[i + 1] == b);
        }
    }
    assert(junction_path(t, mode, entry, exit, q));
    assert(q.last() == b);
}

proof fn lemma_entry_reached(t: Trail, mode: Mode, entry: int, exit: int)
    ensures
        reached_junction(t, mode, entry, exit, entry),
{
    let p = seq![entry];
    assert(junction_path(t, mode, entry, exit, p));
    assert(p.last() == entry);
}

/// Walks the corridor out of junction `i` (cell `from`) in direction `d`, adds
/// the junction it reaches if that one is new, and lists the edge.
#[verifier::rlimit(100)]
fn follow(
    t: &Trail,
    mode: Mode,
    entry: usize,
    exit: usize,
    i: usize,
    from: usize,
    d: Dir,
    junctions: &mut Vec<usize>,
    out: &mut Vec<(usize, usize)>,
) -> (r: Result<(), BuildError>)
    requires
        t.wf(),
        i < old(junctions)@.len() <= t.tiles@.len(),
        from == old(junctions)@[i as int],
        old(junctions)@.no_duplicates(),
        forall|q: int|
            0 <= q < old(junctions)@.len() ==> old(junctions)@[q] < t.tiles@.len() && is_junction(
                *t,
                entry as int,
                exit as int,
                #[trigger] old(junctions)@[q] as int,
            ) && reached_junction(*t, mode, entry as int, exit as int, old(junctions)@[q] as int),
    ensures
        r is Ok ==> {
            let js = final(junctions)@;
            &&& old(junctions)@.len() <= js.len() <= t.tiles@.len()
            &&& js.subrange(0, old(junctions)@.len() as int) == old(junctions)@
            &&& js.no_duplicates()
            &&& forall|q: int|
                0 <= q < js.len() ==> js[q] < t.tiles@.len() && is_junction(
                    *t,
                    entry as int,
                    exit as int,
                    #[trigger] js[q] as int,
                ) && reached_junction(*t, mode, entry as int, exit as int, js[q] as int)
            &&& old(out)@.len() <= final(out)@.len()
            &&& final(out)@.subrange(0, old(out)@.len() as int) == old(out)@
            &&& forall|e: int|
                old(out)@.len() <= e < final(out)@.len() ==> edge_fits(
                    t.tiles@.len() as nat,
                    js,
                    i as int,
                    #[trigger] final(out)@[e],
                ) && edge_sound(*t, mode, entry as int, exit as int, js, i as int, final(out)@[e])
            &&& corridor_listed(*t, mode, entry as int, exit as int, js, i as int, d, final(out)@)
            &&& forall|q: int|
                old(junctions)@.len() <= q < js.len() ==> #[trigger] targeted(final(out)@, q)
        },
        r matches Err(BuildError::Lost(c)) ==> c == from && can_step(*t, mode, from as int, d)
            && corridor(*t, mode, entry as int, exit as int, from as int, d) == Corridor::Lost,
        r matches Err(e) ==> e is Lost,
{
    let n = t.tiles.len();
    if let Some(first) = get_valid_neighbor(t, mode, from, d) {
        let c = walk_corridor(t, mode, entry, exit, from, first);
        proof {
            lemma_walk_reached(
                *t,
                mode,
                entry as int,
                exit as int,
                from as int,
                first as int,
                1,
                (n - 1) as nat,
            );
        }
        match c {
            Corridor::Reached { to, len } => {
                if to != from {
                    let ghost js1 = junctions@;
                    proof {
                        assert(js1[i as int] == from);
                        assert(corridor(*t, mode, entry as int, exit as int, from as int, d) == c);
                        assert(corridor_step(*t, mode, entry as int, exit as int, from as int, to as int));
                        lemma_path_extends(*t, mode, entry as int, exit as int, from as int, to as int);
                    }
                    let j = match index_of(junctions, to) {
                        Some(j) => j,
                        None => {
                            junctions.push(to);
                            proof {
                                assert forall|a: int, b: int|
                                    0 <= a < junctions@.len() && 0 <= b < junctions@.len() && a
                                        != b implies junctions@[a] != junctions@[b] by {
                                    if a < js1.len() && b < js1.len() {
                                        assert(js1[a] != js1[b]);
                                    }
                                }
                                lemma_distinct_below(junctions@, n as nat);
                            }
                            junctions.len() - 1
                        },
                    };
                    out.push((j, len));
                    proof {
                        assert(junctions@[i as int] == from);
                        assert(edge_sound(
                            *t,
                            mode,
                            entry as int,
                            exit as int,
                            junctions@,
                            i as int,
                            (j, len),
                        ));
                        assert(out@[out@.len() - 1] == (j, len));
                        assert(out@.contains((j, len)));
                    }
                }
            },
            Corridor::DeadEnd => {},
            Corridor::Lost => {
                return Err(BuildError::Lost(from));
            },
        }
    }
    proof {
        assert(junctions@.subrange(0, junctions@.len() as int) == junctions@);
        assert(out@.subrange(0, out@.len() as int) == out@);
    }
    Ok(())
}

/// Contracts a map into its junction graph. Junctions are found from the
/// entry on: every legal corridor out of a junction found so far is walked to
/// its end, and the junction it reaches is added if it is new.
#[verifier::rlimit(100)]
pub fn build_graph(t: &Trail, mode: Mode) -> (r: Result<Graph, BuildError>)
    requires
        t.wf(),
    ensures
        r matches Ok(g) ==> g.contracts(*t, mode) && g.no_isolated_junction(),
        (r matches Err(BuildError::NoEntry)) <==> forall|id: int| !is_entry(*t, id),
        (r matches Err(BuildError::NoExit)) <==> (exists|id: int| is_entry(*t, id)) && forall|
            id: int,
        | !is_exit(*t, id),
        r matches Err(BuildError::Lost(c)) ==> exists|entry: int, exit: int, d: Dir|
            is_entry(*t, entry) && is_exit(*t, exit) && is_junction(*t, entry, exit, c as int)
                && reached_junction(*t, mode, entry, exit, c as int) && can_step(*t, mode, c as int, d)
                && #[trigger] corridor(*t, mode, entry, exit, c as int, d) == Corridor::Lost,
{
    let n = t.tiles.len();
    let w = t.width;
    proof {
        assert(n >= w) by (nonlinear_arith)
            requires
                n == w * t.height,
                t.height >= 1,
        ;
    }
    let entry = match find_gap(t, 0) {
        None => {
            return Err(BuildError::NoEntry);
        },
        Some(e) => e,
    };
    assert(is_entry(*t, entry as int));
    let exit = match find_gap(t, n - w) {
        None => {
            return Err(BuildError::NoExit);
        },
        Some(x) => x,
    };
    let dirs = [Dir::Up, Dir::Down, Dir::Left, Dir::Right];
    let mut junctions: Vec<usize> = Vec::new();
    junctions.push(entry);
    proof {
        lemma_entry_reached(*t, mode, entry as int, exit as int);
    }
    let mut edges: Vec<Vec<(usize, usize)>> = Vec::new();
    while edges.len() < junctions.len()
        invariant
            t.wf(),
            n == t.tiles@.len(),
            is_entry(*t, entry as int),
            is_exit(*t, exit as int),
            dirs@ == seq![Dir::Up, Dir::Down, Dir::Left, Dir::Right],
            1 <= junctions@.len() <= n,
            junctions@[0] == entry,
            junctions@.no_duplicates(),
            forall|k: int|
                0 <= k < junctions@.len() ==> junctions@[k] < n && is_junction(
                    *t,
                    entry as int,
                    exit as int,
                    #[trigger] junctions@[k] as int,
                ) && reached_junction(*t, mode, entry as int, exit as int, junctions@[k] as int),
            edges@.len() <= junctions@.len(),
            forall|i: int, e: int|
                0 <= i < edges@.len() && 0 <= e < edges@[i]@.len() ==> edge_fits(
                    n as nat,
                    junctions@,
                    i,
                    #[trigger] edges@[i]@[e],
                ) && edge_sound(*t, mode, entry as int, exit as int, junctions@, i, edges@[i]@[e]),
            forall|i: int, d: Dir|
                0 <= i < edges@.len() ==> #[trigger] corridor_listed(
                    *t,
                    mode,
                    entry as int,
                    exit as int,
                    junctions@,
                    i,
                    d,
                    edges@[i]@,
                ),
            forall|k: int| 1 <= k < junctions@.len() ==> #[trigger] entered_in(edges@, k),
            edges@.len() == 0 ==> junctions@.len() == 1,
            edges@.len() > 0 && junctions@.len() > 1 ==> edges@[0]@.len() > 0,
        decreases n - edges@.len(),
    {
        let i = edges.len();
        let from = junctions[i];
        let ghost js0 = junctions@;
        let mut out: Vec<(usize, usize)> = Vec::new();
        let mut k: usize = 0;
        while k < 4
            invariant
                t.wf(),
                n == t.tiles@.len(),
                is_entry(*t, entry as int),
                is_exit(*t, exit as int),
                dirs@ == seq![Dir::Up, Dir::Down, Dir::Left, Dir::Right],
                i == edges@.len(),
                i < js0.len(),
                from == js0[i as int],
                k <= 4,
                js0.len() <= junctions@.len() <= n,
                junctions@.subrange(0, js0.len() as int) == js0,
                junctions@.no_duplicates(),
                forall|q: int|
                    0 <= q < junctions@.len() ==> junctions@[q] < n && is_junction(
                        *t,
                        entry as int,
                        exit as int,
                        #[trigger] junctions@[q] as int,
                    ) && reached_junction(*t, mode, entry as int, exit as int, junctions@[q] as int),
                forall|e: int|
                    0 <= e < out@.len() ==> edge_fits(
                        n as nat,
                        junctions@,
                        i as int,
                        #[trigger] out@[e],
                    ) && edge_sound(*t, mode, entry as int, exit as int, junctions@, i as int, out@[e]),
                forall|j: int|
                    0 <= j < k ==> #[trigger] corridor_listed(
                        *t,
                        mode,
                        entry as int,
                        exit as int,
                        junctions@,
                        i as int,
                        dir_at(j),
                        out@,
                    ),
                forall|q: int| js0.len() <= q < junctions@.len() ==> #[trigger] targeted(out@, q),
            decreases 4 - k,
        {
            let d = dirs[k];
            assert(d == dir_at(k as int));
            let ghost js1 = junctions@;
            let ghost out1 = out@;
            match follow(t, mode, entry, exit, i, from, d, &mut junctions, &mut out) {
                Ok(()) => {},
                Err(e) => {
                    proof {
                        assert(corridor(*t, mode, entry as int, exit as int, from as int, d)
                            == Corridor::Lost);
                        assert(js1[i as int] == from);
                        assert(reached_junction(*t, mode, entry as int, exit as int, from as int));
                        assert(is_junction(*t, entry as int, exit as int, from as int));
                    }
                    return Err(e);
                },
            }
            proof {
                lemma_extend(
                    *t,
                    mode,
                    entry as int,
                    exit as int,
                    n as nat,
                    js1,
                    junctions@,
                    i as int,
                    out1,
                    out@,
                );
                assert forall|e: int| 0 <= e < out@.len() implies edge_fits(
                    n as nat,
                    junctions@,
                    i as int,
                    #[trigger] out@[e],
                ) && edge_sound(*t, mode, entry as int, exit as int, junctions@, i as int, out@[e]) by {
                    if e < out1.len() {
                        assert(out@[e] == out1[e]);
                    }
                }
                assert forall|j: int| 0 <= j <= k implies #[trigger] corridor_listed(
                    *t,
                    mode,
                    entry as int,
                    exit as int,
                    junctions@,
                    i as int,
                    dir_at(j),
                    out@,
                ) by {
                    if j < k {
                        assert(corridor_listed(
                            *t,
                            mode,
                            entry as int,
                            exit as int,
                            js1,
                            i as int,
                            dir_at(j),
                            out1,
                        ));
                    }
                }
                assert forall|q: int| js0.len() <= q < junctions@.len() implies #[trigger] targeted(
                    out@,
                    q,
                ) by {
                    if q < js1.len() {
                        assert(targeted(out1, q));
                        let e = choose|e: int| 0 <= e < out1.len() && (#[trigger] out1[e]).0 == q;
                        assert(out@[e] == out1[e]);
                    }
                }
                assert(junctions@.subrange(0, js0.len() as int) =~= js0) by {
                    assert(js1.subrange(0, js0.len() as int) == js0);
                    assert forall|a: int| 0 <= a < js0.len() implies junctions@[a] == js0[a] by {
                        assert(junctions@[a] == js1[a]);
                    }
                }
            }
            k = k + 1;
        }
        let ghost es0 = edges@;
        edges.push(out);
        proof {
            assert forall|a: int, e: int|
                0 <= a < edges@.len() && 0 <= e < edges@[a]@.len() implies edge_fits(
                n as nat,
                junctions@,
                a,
                #[trigger] edges@[a]@[e],
            ) && edge_sound(*t, mode, entry as int, exit as int, junctions@, a, edges@[a]@[e]) by {
                if a < i {
                    assert(edges@[a] == es0[a]);
                    assert(es0[a]@.subrange(0, es0[a]@.len() as int) =~= es0[a]@);
                    lemma_extend(
                        *t,
                        mode,
                        entry as int,
                        exit as int,
                        n as nat,
                        js0,
                        junctions@,
                        a,
                        es0[a]@,
                        es0[a]@,
                    );
                    assert(edge_fits(n as nat, js0, a, es0[a]@[e]));
                }
            }
            assert forall|a: int, d: Dir| 0 <= a < edges@.len() implies #[trigger] corridor_listed(
                *t,
                mode,
                entry as int,
                exit as int,
                junctions@,
                a,
                d,
                edges@[a]@,
            ) by {
                if a < i {
                    assert(edges@[a] == es0[a]);
                    assert(es0[a]@.subrange(0, es0[a]@.len() as int) =~= es0[a]@);
                    lemma_extend(
                        *t,
                        mode,
                        entry as int,
                        exit as int,
                        n as nat,
                        js0,
                        junctions@,
                        a,
                        es0[a]@,
                        es0[a]@,
                    );
                    assert(corridor_listed(*t, mode, entry as int, exit as int, js0, a, d, es0[a]@));
                } else {
                    assert(d == dir_at(0) || d == dir_at(1) || d == dir_at(2) || d == dir_at(3));
                }
            }
            assert forall|q: int| 1 <= q < junctions@.len() implies #[trigger] entered_in(
                edges@,
                q,
            ) by {
                if q < js0.len() {
                    assert(entered_in(es0, q));
                    let (a, e) = choose|a: int, e: int|
                        0 <= a < q && a < es0.len() && 0 <= e < es0[a]@.len() && (
                        #[trigger] es0[a]@[e]).0 == q;
                    assert(edges@[a] == es0[a]);
                } else {
                    assert(targeted(out@, q));
                    let e = choose|e: int| 0 <= e < out@.len() && (#[trigger] out@[e]).0 == q;
                    assert(edges@[i as int]@[e].0 == q);
                }
            }
            if i == 0 && junctions@.len() > 1 {
                assert(js0.len() == 1);
                assert(targeted(out@, 1));
            }
            if i > 0 {
                assert(edges@[0] == es0[0]);
            }
        }
    }
    Ok(Graph { entry, exit, cells: n, junctions, edges })
}


/// The corridors of a graph as (from cell, to cell, length) triples.
pub open spec fn edge_set(g: Graph) -> Set<(usize, usize, usize)> {
    Set::new(
        |x: (usize, usize, usize)|
            exists|i: int, e: int|
                0 <= i < g.edges@.len() && 0 <= e < g.edges@[i]@.len() && x == (
                    g.junctions@[i],
                    g.junctions@[(#[trigger] g.edges@[i]@[e]).0 as int],
                    g.edges@[i]@[e].1,
                ),
    )
}

proof fn lemma_sole_gap_unique(t: Trail, start: int, a: int, b: int)
    requires
        sole_gap(t, start, a),
        sole_gap(t, start, b),
    ensures
        a == b,
{
    if a != b {
        assert(is_open(t, b));
    }
}

/// Junction `k` of `g1` is a junction of `g2` too.
#[verifier::rlimit(100)]
proof fn lemma_junction_shared(t: Trail, mode: Mode, g1: Graph, g2: Graph, k: int)
    requires
        g1.contracts(t, mode),
        g1.no_isolated_junction(),
        g2.contracts(t, mode),
        g1.entry == g2.entry,
        g1.exit == g2.exit,
        0 <= k < g1.junctions@.len(),
    ensures
        exists|j: int| 0 <= j < g2.junctions@.len() && g2.junctions@[j] == g1.junctions@[k],
    decreases k,
{
    let js1 = g1.junctions@;
    let js2 = g2.junctions@;
    if k == 0 {
        assert(js2[0] == js1[0]);
    } else {
        assert(g1.entered(k));
        let (i, e) = choose|i: int, e: int|
            0 <= i < k && i < g1.edges@.len() && 0 <= e < g1.edges@[i]@.len() && (
            #[trigger] g1.edges@[i]@[e]).0 == k;
        let w = g1.edges@[i]@[e].1;
        assert(edge_sound(t, mode, g1.entry as int, g1.exit as int, js1, i, g1.edges@[i]@[e]));
        let d = choose|d: Dir|
            #[trigger] can_step(t, mode, js1[i] as int, d) && corridor(
                t,
                mode,
                g1.entry as int,
                g1.exit as int,
                js1[i] as int,
                d,
            ) == (Corridor::Reached { to: js1[k], len: w });
        lemma_junction_shared(t, mode, g1, g2, i);
        let i2 = choose|j: int| 0 <= j < js2.len() && js2[j] == js1[i];
        assert(corridor_listed(t, mode, g2.entry as int, g2.exit as int, js2, i2, d, g2.edges@[i2]@));
        assert(js1[i] != js1[k]);
    }
}

/// Every corridor of `g1` is a corridor of `g2`.
#[verifier::rlimit(100)]
proof fn lemma_edges_shared(t: Trail, mode: Mode, g1: Graph, g2: Graph)
    requires
        g1.contracts(t, mode),
        g1.no_isolated_junction(),
        g2.contracts(t, mode),
        g1.entry == g2.entry,
        g1.exit == g2.exit,
    ensures
        edge_set(g1).subset_of(edge_set(g2)),
{
    let js1 = g1.junctions@;
    let js2 = g2.junctions@;
    assert forall|x: (usize, usize, usize)| edge_set(g1).contains(x) implies edge_set(g2).contains(
        x,
    ) by {
        let (i, e) = choose|i: int, e: int|
            0 <= i < g1.edges@.len() && 0 <= e < g1.edges@[i]@.len() && x == (
                js1[i],
                js1[(#[trigger] g1.edges@[i]@[e]).0 as int],
                g1.edges@[i]@[e].1,
            );
        let (j, w) = g1.edges@[i]@[e];
        assert(edge_fits(g1.cells as nat, js1, i, g1.edges@[i]@[e]));
        assert(edge_sound(t, mode, g1.entry as int, g1.exit as int, js1, i, g1.edges@[i]@[e]));
        let d = choose|d: Dir|
            #[trigger] can_step(t, mode, js1[i] as int, d) && corridor(
                t,
                mode,
                g1.entry as int,
                g1.exit as int,
                js1[i] as int,
                d,
            ) == (Corridor::Reached { to: js1[j as int], len: w });
        lemma_junction_shared(t, mode, g1, g2, i);
        let i2 = choose|a: int| 0 <= a < js2.len() && js2[a] == js1[i];
        assert(corridor_listed(t, mode, g2.entry as int, g2.exit as int, js2, i2, d, g2.edges@[i2]@));
        assert(js1[i] != js1[j as int]);
        let j2 = choose|b: int|
            0 <= b < js2.len() && js2[b] == js1[j as int] && g2.edges@[i2]@.contains(
                (b as usize, w),
            );
        let e2 = choose|c: int| 0 <= c < g2.edges@[i2]@.len() && g2.edges@[i2]@[c] == (j2 as usize, w);
        assert(g2.edges@[i2]@[e2].0 == j2);
    }
}

/// Building a graph twice gives the same result: any two graphs that meet
/// what `build_graph` promises for one map and one mode have the same
/// junctions and the same corridors, with the same lengths.
pub proof fn lemma_build_idempotent(t: Trail, mode: Mode, g1: Graph, g2: Graph)
    requires
        g1.contracts(t, mode),
        g1.no_isolated_junction(),
        g2.contracts(t, mode),
        g2.no_isolated_junction(),
    ensures
        g1.junctions@.to_set() == g2.junctions@.to_set(),
        edge_set(g1) == edge_set(g2),
{
    lemma_sole_gap_unique(t, 0, g1.entry as int, g2.entry as int);
    lemma_sole_gap_unique(t, t.tiles@.len() - t.width, g1.exit as int, g2.exit as int);
    assert forall|c: usize| g1.junctions@.to_set().contains(c) implies g2.junctions@.to_set().contains(
        c,
    ) by {
        let k = choose|k: int| 0 <= k < g1.junctions@.len() && g1.junctions@[k] == c;
        lemma_junction_shared(t, mode, g1, g2, k);
    }
    assert forall|c: usize| g2.junctions@.to_set().contains(c) implies g1.junctions@.to_set().contains(
        c,
    ) by {
        let k = choose|k: int| 0 <= k < g2.junctions@.len() && g2.junctions@[k] == c;
        lemma_junction_shared(t, mode, g2, g1, k);
    }
    assert(g1.junctions@.to_set() =~= g2.junctions@.to_set());
    lemma_edges_shared(t, mode, g1, g2);
    lemma_edges_shared(t, mode, g2, g1);
    assert(edge_set(g1) =~= edge_set(g2));
}

pub open spec fn opposite(d: Dir) -> Dir {
    match d {
        Dir::Up => Dir::Down,
        Dir::Down => Dir::Up,
        Dir::Left => Dir::Right,
        Dir::Right => Dir::Left,
    }
}

/// Stepping back undoes a step, and different directions lead to different
/// cells.
proof fn lemma_neighbor_facts(t: Trail, id: int, d: Dir, e: Dir)
    requires
        t.wf(),
        0 <= id < t.tiles@.len(),
    ensures
        neighbor(t, id, d) matches Some(to) ==> neighbor(t, to, opposite(d)) == Some(id),
        d != e && neighbor(t, id, d) is Some && neighbor(t, id, e) is Some ==> neighbor(t, id, d)
            != neighbor(t, id, e),
{
    let w = t.width as int;
    lemma_neighbor_in_map(t, id, d);
    vstd::arithmetic::div_mod::lemma_fundamental_div_mod(id, w);
    vstd::arithmetic::div_mod::lemma_mod_bound(id, w);
    if id >= w {
        vstd::arithmetic::div_mod::lemma_mod_sub_multiples_vanish(id, w);
    }
    vstd::arithmetic::div_mod::lemma_mod_add_multiples_vanish(id, w);
    if id % w != 0 {
        vstd::arithmetic::div_mod::lemma_fundamental_div_mod_converse(
            id - 1,
            w,
            id / w,
            id % w - 1,
        );
    }
    if id % w != w - 1 {
        vstd::arithmetic::div_mod::lemma_fundamental_div_mod_converse(
            id + 1,
            w,
            id / w,
            id % w + 1,
        );
    }
    if w == 1 {
        vstd::arithmetic::div_mod::lemma_mod_self_0(1);
        assert(id % w == 0);
    }
}

/// Direction `d` from `cur` leads to an open cell other than `prev`.
pub open spec fn leads_on(t: Trail, prev: int, cur: int, d: Dir) -> bool {
    match neighbor(t, cur, d) {
        Some(n) => is_open(t, n) && n != prev,
        None => false,
    }
}

/// Outside junctions a corridor has one way on: besides the cell the walk
/// came from, an open cell has at most one open neighbor.
proof fn lemma_one_way_on(t: Trail, entry: int, exit: int, prev: int, cur: int, e: Dir, d1: Dir, d2: Dir)
    requires
        t.wf(),
        0 <= cur < t.tiles@.len(),
        is_open(t, cur),
        !is_junction(t, entry, exit, cur),
        neighbor(t, cur, e) == Some(prev),
        is_open(t, prev),
        leads_on(t, prev, cur, d1),
        leads_on(t, prev, cur, d2),
    ensures
        d1 == d2,
{
    lemma_neighbor_facts(t, cur, d1, d2);
    lemma_neighbor_facts(t, cur, d1, e);
    lemma_neighbor_facts(t, cur, d2, e);
    lemma_neighbor_in_map(t, cur, d1);
    lemma_neighbor_in_map(t, cur, d2);
    lemma_neighbor_in_map(t, cur, e);
}

/// A corridor walk that ends at a junction with slopes obeyed takes the same
/// way, and ends alike, without the slope rule.
proof fn lemma_walk_kept(t: Trail, entry: int, exit: int, prev: int, cur: int, e: Dir, steps: nat, fuel: nat)
    requires
        t.wf(),
        0 <= cur < t.tiles@.len(),
        is_open(t, cur),
        neighbor(t, cur, e) == Some(prev),
        is_open(t, prev),
        walk(t, Mode::Constrained, entry, exit, prev, cur, steps, fuel) is Reached,
    ensures
        walk(t, Mode::Unconstrained, entry, exit, prev, cur, steps, fuel) == walk(
            t,
            Mode::Constrained,
            entry,
            exit,
            prev,
            cur,
            steps,
            fuel,
        ),
    decreases fuel,
{
    if !is_junction(t, entry, exit, cur) && fuel > 0 {
        let dc = onward(t, Mode::Constrained, prev, cur)->0;
        lemma_neighbor_in_map(t, cur, dc);
        assert(leads_on(t, prev, cur, dc));
        assert forall|d: Dir| #[trigger] leads_on(t, prev, cur, d) implies d == dc by {
            lemma_one_way_on(t, entry, exit, prev, cur, e, d, dc);
        }
        assert(onward(t, Mode::Unconstrained, prev, cur) == Some(dc)) by {
            assert(can_step(t, Mode::Unconstrained, cur, dc));
            if can_step(t, Mode::Unconstrained, cur, Dir::Up) && neighbor(t, cur, Dir::Up) != Some(
                prev,
            ) {
                assert(leads_on(t, prev, cur, Dir::Up));
            }
            if can_step(t, Mode::Unconstrained, cur, Dir::Down) && neighbor(t, cur, Dir::Down)
                != Some(prev) {
                assert(leads_on(t, prev, cur, Dir::Down));
            }
            if can_step(t, Mode::Unconstrained, cur, Dir::Left) && neighbor(t, cur, Dir::Left)
                != Some(prev) {
                assert(leads_on(t, prev, cur, Dir::Left));
            }
        }
        let next = neighbor(t, cur, dc).unwrap();
        lemma_neighbor_facts(t, cur, dc, dc);
        lemma_walk_kept(t, entry, exit, cur, next, opposite(dc), steps + 1, (fuel - 1) as nat);
    }
}

/// Dropping the slope rule keeps every corridor that the slopes allow: it
/// may still be entered, and it reaches the same junction after the same
/// number of steps.
pub proof fn lemma_corridor_kept(t: Trail, entry: int, exit: int, from: int, d: Dir)
    requires
        t.wf(),
        0 <= from < t.tiles@.len(),
        is_open(t, from),
        can_step(t, Mode::Constrained, from, d),
        corridor(t, Mode::Constrained, entry, exit, from, d) is Reached,
    ensures
        can_step(t, Mode::Unconstrained, from, d),
        corridor(t, Mode::Unconstrained, entry, exit, from, d) == corridor(
            t,
            Mode::Constrained,
            entry,
            exit,
            from,
            d,
        ),
{
    let first = neighbor(t, from, d).unwrap();
    lemma_neighbor_in_map(t, from, d);
    lemma_neighbor_facts(t, from, d, d);
    lemma_walk_kept(t, entry, exit, from, first, opposite(d), 1, (t.tiles@.len() - 1) as nat);
}

/// Junction `k` of a graph built with slopes obeyed is a junction of one
/// built without the slope rule.
#[verifier::rlimit(100)]
proof fn lemma_junction_kept(t: Trail, gc: Graph, gu: Graph, k: int)
    requires
        gc.contracts(t, Mode::Constrained),
        gc.no_isolated_junction(),
        gu.contracts(t, Mode::Unconstrained),
        gc.entry == gu.entry,
        gc.exit == gu.exit,
        0 <= k < gc.junctions@.len(),
    ensures
        exists|j: int| 0 <= j < gu.junctions@.len() && gu.junctions@[j] == gc.junctions@[k],
    decreases k,
{
    let js1 = gc.junctions@;
    let js2 = gu.junctions@;
    if k == 0 {
        assert(js2[0] == js1[0]);
    } else {
        assert(gc.entered(k));
        let (i, e) = choose|i: int, e: int|
            0 <= i < k && i < gc.edges@.len() && 0 <= e < gc.edges@[i]@.len() && (
            #[trigger] gc.edges@[i]@[e]).0 == k;
        let w = gc.edges@[i]@[e].1;
        assert(edge_sound(t, Mode::Constrained, gc.entry as int, gc.exit as int, js1, i, gc.edges@[i]@[e]));
        let d = choose|d: Dir|
            #[trigger] can_step(t, Mode::Constrained, js1[i] as int, d) && corridor(
                t,
                Mode::Constrained,
                gc.entry as int,
                gc.exit as int,
                js1[i] as int,
                d,
            ) == (Corridor::Reached { to: js1[k], len: w });
        assert(is_junction(t, gc.entry as int, gc.exit as int, js1[i] as int));
        assert(is_open(t, js1[i] as int));
        lemma_corridor_kept(t, gc.entry as int, gc.exit as int, js1[i] as int, d);
        lemma_junction_kept(t, gc, gu, i);
        let i2 = choose|j: int| 0 <= j < js2.len() && js2[j] == js1[i];
        assert(corridor_listed(
            t,
            Mode::Unconstrained,
            gu.entry as int,
            gu.exit as int,
            js2,
            i2,
            d,
            gu.edges@[i2]@,
        ));
        assert(js1[i] != js1[k]);
    }
}

/// How many junctions `vis` leaves unmarked.
pub open spec fn unvisited(vis: Seq<bool>) -> nat
    decreases vis.len(),
{
    if vis.len() == 0 {
        0
    } else {
        unvisited(vis.drop_last()) + if vis.last() {
            0nat
        } else {
            1nat
        }
    }
}

pub proof fn lemma_mark(vis: Seq<bool>, j: int)
    requires
        0 <= j < vis.len(),
        !vis[j],
    ensures
        unvisited(vis.update(j, true)) + 1 == unvisited(vis),
    decreases vis.len(),
{
    let u = vis.update(j, true);
    if j == vis.len() - 1 {
        assert(u.drop_last() =~= vis.drop_last());
    } else {
        assert(u.drop_last() =~= vis.drop_last().update(j, true));
        lemma_mark(vis.drop_last(), j);
    }
}

proof fn lemma_unvisited_bound(vis: Seq<bool>)
    ensures
        unvisited(vis) <= vis.len(),
    decreases vis.len(),
{
    if vis.len() > 0 {
        lemma_unvisited_bound(vis.drop_last());
    }
}

pub open spec fn max_opt(a: Option<int>, b: Option<int>) -> Option<int> {
    match (a, b) {
        (Some(x), Some(y)) => Some(if x >= y {
            x
        } else {
            y
        }),
        (Some(x), None) => Some(x),
        (None, _) => b,
    }
}

/// The length of the longest walk from junction `cur` to junction `goal` that
/// leaves `cur` by one of its first `k` edges and enters no junction marked in
/// `vis`; `None` when there is no such walk. A walk ends where it first
/// reaches `goal`.
pub open spec fn longest_via(g: Graph, goal: int, cur: int, vis: Seq<bool>, k: int) -> Option<int>
    decreases unvisited(vis), k,
{
    if k <= 0 || !(0 <= cur < g.edges@.len()) || k > g.edges@[cur]@.len() {
        None
    } else {
        let (j, w) = g.edges@[cur]@[k - 1];
        let here = if j < vis.len() && !vis[j as int] {
            if j == goal {
                Some(w as int)
            } else {
                proof {
                    lemma_mark(vis, j as int);
                }
                match longest_via(
                    g,
                    goal,
                    j as int,
                    vis.update(j as int, true),
                    g.edges@[j as int]@.len() as int,
                ) {
                    Some(b) => Some(b + w),
                    None => None,
                }
            }
        } else {
            None
        };
        max_opt(longest_via(g, goal, cur, vis, k - 1), here)
    }
}

/// The longest walk from `cur` to `goal` through junctions unmarked in `vis`.
pub open spec fn longest_from(g: Graph, goal: int, cur: int, vis: Seq<bool>) -> Option<int> {
    if cur == goal {
        Some(0)
    } else {
        longest_via(g, goal, cur, vis, g.edges@[cur]@.len() as int)
    }
}

/// The longest simple walk of the graph from the entry junction to the exit
/// junction, if the exit is a junction of the graph and can be reached.
pub open spec fn longest(g: Graph) -> Option<int> {
    if exists|k: int| 0 <= k < g.junctions@.len() && g.junctions@[k] == g.exit {
        let k = choose|k: int| 0 <= k < g.junctions@.len() && g.junctions@[k] == g.exit;
        longest_from(g, k, 0, Seq::new(g.junctions@.len(), |i: int| i == 0))
    } else {
        None
    }
}

pub open spec fn as_int(r: Option<u128>) -> Option<int> {
    match r {
        Some(b) => Some(b as int),
        None => None,
    }
}

fn search(g: &Graph, goal: usize, cur: usize, vis: &mut Vec<bool>) -> (r: Option<u128>)
    requires
        g.wf(),
        cur < g.edges@.len(),
        old(vis)@.len() == g.edges@.len(),
    ensures
        final(vis)@ == old(vis)@,
        as_int(r) == longest_via(*g, goal as int, cur as int, old(vis)@, g.edges@[cur as int]@.len() as int),
        r matches Some(b) ==> b <= unvisited(old(vis)@) * g.cells,
    decreases unvisited(old(vis)@),
{
    let edges = &g.edges[cur];
    let mut best: Option<u128> = None;
    let mut k: usize = 0;
    while k < edges.len()
        invariant
            g.wf(),
            cur < g.edges@.len(),
            *edges == g.edges@[cur as int],
            vis@.len() == g.edges@.len(),
            vis@ == old(vis)@,
            k <= edges@.len(),
            as_int(best) == longest_via(*g, goal as int, cur as int, vis@, k as int),
            best matches Some(b) ==> b <= unvisited(vis@) * g.cells,
        decreases edges@.len() - k,
    {
        let (j, w) = edges[k];
        assert(edge_fits(g.cells as nat, g.junctions@, cur as int, g.edges@[cur as int]@[k as int]));
        let mut here: Option<u128> = None;
        if !vis[j] {
            proof {
                lemma_mark(vis@, j as int);
            }
            if j == goal {
                here = Some(w as u128);
                proof {
                    assert(w <= unvisited(vis@) * g.cells) by (nonlinear_arith)
                        requires
                            w <= g.cells,
                            unvisited(vis@) >= 1,
                    ;
                }
            } else {
                let ghost v0 = vis@;
                vis.set(j, true);
                let sub = search(g, goal, j, vis);
                vis.set(j, false);
                assert(vis@ =~= v0);
                if let Some(b) = sub {
                    proof {
                        assert(b + w <= unvisited(v0) * g.cells) by (nonlinear_arith)
                            requires
                                b <= unvisited(v0.update(j as int, true)) * g.cells,
                                unvisited(v0.update(j as int, true)) + 1 == unvisited(v0),
                                w <= g.cells,
                        ;
                        lemma_unvisited_bound(v0);
                        assert(unvisited(v0) * g.cells <= usize::MAX * usize::MAX) by (nonlinear_arith)
                            requires
                                unvisited(v0) <= v0.len(),
                                v0.len() <= usize::MAX,
                                g.cells <= usize::MAX,
                        ;
                    }
                    here = Some(b + w as u128);
                }
            }
        }
        best = match (best, here) {
            (Some(x), Some(y)) => Some(if x >= y {
                x
            } else {
                y
            }),
            (Some(x), None) => Some(x),
            (None, _) => here,
        };
        k = k + 1;
    }
    best
}


/// The search from `cur` is at least as long as the walk that takes edge `e`
/// to an unmarked junction: `c` is that edge's length plus the best walk on.
proof fn lemma_via_ge(g: Graph, goal: int, cur: int, vis: Seq<bool>, k: int, e: int, c: int)
    requires
        0 <= cur < g.edges@.len(),
        0 <= e < k <= g.edges@[cur]@.len(),
        g.edges@[cur]@[e].0 < vis.len(),
        !vis[g.edges@[cur]@[e].0 as int],
        g.edges@[cur]@[e].0 == goal ==> c == g.edges@[cur]@[e].1,
        g.edges@[cur]@[e].0 != goal ==> longest_via(
            g,
            goal,
            g.edges@[cur]@[e].0 as int,
            vis.update(g.edges@[cur]@[e].0 as int, true),
            g.edges@[g.edges@[cur]@[e].0 as int]@.len() as int,
        ) == Some(c - g.edges@[cur]@[e].1),
    ensures
        longest_via(g, goal, cur, vis, k) matches Some(b) && b >= c,
    decreases k,
{
    if k - 1 > e {
        lemma_via_ge(g, goal, cur, vis, k - 1, e, c);
    }
}

/// A walk of the graph built with slopes obeyed is a walk of the one built
/// without the rule: the search there, from the same junction and with no
/// more junctions marked, is at least as long.
#[verifier::rlimit(100)]
proof fn lemma_embed(
    t: Trail,
    gc: Graph,
    gu: Graph,
    goal: int,
    cur: int,
    vis_c: Seq<bool>,
    vis_u: Seq<bool>,
    k: int,
    a: int,
)
    requires
        gc.contracts(t, Mode::Constrained),
        gc.no_isolated_junction(),
        gu.contracts(t, Mode::Unconstrained),
        gc.entry == gu.entry,
        gc.exit == gu.exit,
        0 <= goal < gc.junctions@.len(),
        0 <= cur < gc.junctions@.len(),
        vis_c.len() == gc.junctions@.len(),
        vis_u.len() == gu.junctions@.len(),
        forall|j2: int|
            0 <= j2 < vis_u.len() && #[trigger] vis_u[j2] ==> exists|j1: int|
                0 <= j1 < vis_c.len() && gu.junctions@[j2] == gc.junctions@[j1] && vis_c[j1],
        0 <= k <= gc.edges@[cur]@.len(),
        longest_via(gc, goal, cur, vis_c, k) == Some(a),
    ensures
        forall|cu: int, gl: int|
            0 <= cu < gu.junctions@.len() && gu.junctions@[cu] == gc.junctions@[cur] && 0 <= gl
                < gu.junctions@.len() && gu.junctions@[gl] == gc.junctions@[goal] ==> ((
            #[trigger] longest_via(gu, gl, cu, vis_u, gu.edges@[cu]@.len() as int)) matches Some(b)
                && b >= a),
    decreases unvisited(vis_c), k,
{
    let jc = gc.junctions@;
    let ju = gu.junctions@;
    let (j, w) = gc.edges@[cur]@[k - 1];
    let rest = longest_via(gc, goal, cur, vis_c, k - 1);
    let here = if j < vis_c.len() && !vis_c[j as int] {
        if j == goal {
            Some(w as int)
        } else {
            match longest_via(
                gc,
                goal,
                j as int,
                vis_c.update(j as int, true),
                gc.edges@[j as int]@.len() as int,
            ) {
                Some(b) => Some(b + w),
                None => None,
            }
        }
    } else {
        None
    };
    assert forall|cu: int, gl: int|
        0 <= cu < ju.len() && ju[cu] == jc[cur] && 0 <= gl < ju.len() && ju[gl] == jc[goal] implies ((
    #[trigger] longest_via(gu, gl, cu, vis_u, gu.edges@[cu]@.len() as int)) matches Some(b) && b
        >= a) by {
        if rest is Some && (here is None || rest->0 >= here->0) {
            lemma_embed(t, gc, gu, goal, cur, vis_c, vis_u, k - 1, rest->0);
        } else {
            let c = here->0;
            assert(edge_fits(gc.cells as nat, jc, cur, gc.edges@[cur]@[k - 1]));
            assert(edge_sound(
                t,
                Mode::Constrained,
                gc.entry as int,
                gc.exit as int,
                jc,
                cur,
                gc.edges@[cur]@[k - 1],
            ));
            let d = choose|d: Dir|
                #[trigger] can_step(t, Mode::Constrained, jc[cur] as int, d) && corridor(
                    t,
                    Mode::Constrained,
                    gc.entry as int,
                    gc.exit as int,
                    jc[cur] as int,
                    d,
                ) == (Corridor::Reached { to: jc[j as int], len: w });
            assert(is_junction(t, gc.entry as int, gc.exit as int, jc[cur] as int));
            lemma_corridor_kept(t, gc.entry as int, gc.exit as int, jc[cur] as int, d);
            assert(corridor_listed(
                t,
                Mode::Unconstrained,
                gu.entry as int,
                gu.exit as int,
                ju,
                cu,
                d,
                gu.edges@[cu]@,
            ));
            assert(jc[cur] != jc[j as int]);
            let j2 = choose|b: int|
                0 <= b < ju.len() && ju[b] == jc[j as int] && gu.edges@[cu]@.contains(
                    (b as usize, w),
                );
            let e2 = choose|x: int|
                0 <= x < gu.edges@[cu]@.len() && gu.edges@[cu]@[x] == (j2 as usize, w);
            if vis_u[j2] {
                let j1 = choose|j1: int|
                    0 <= j1 < vis_c.len() && ju[j2] == jc[j1] && vis_c[j1];
                assert(j1 == j);
            }
            if j == goal {
                assert(j2 == gl) by {
                    assert(ju[j2] == ju[gl]);
                }
                lemma_via_ge(gu, gl, cu, vis_u, gu.edges@[cu]@.len() as int, e2, c);
            } else {
                let a2 = longest_via(
                    gc,
                    goal,
                    j as int,
                    vis_c.update(j as int, true),
                    gc.edges@[j as int]@.len() as int,
                )->0;
                let vis_c2 = vis_c.update(j as int, true);
                let vis_u2 = vis_u.update(j2, true);
                assert forall|x2: int| 0 <= x2 < vis_u2.len() && #[trigger] vis_u2[x2] implies exists|
                    x1: int,
                | 0 <= x1 < vis_c2.len() && ju[x2] == jc[x1] && vis_c2[x1] by {
                    if x2 == j2 {
                        assert(vis_c2[j as int]);
                    } else {
                        assert(vis_u[x2]);
                        let x1 = choose|x1: int| 0 <= x1 < vis_c.len() && ju[x2] == jc[x1] && vis_c[x1];
                        assert(vis_c2[x1]);
                    }
                }
                lemma_mark(vis_c, j as int);
                lemma_embed(
                    t,
                    gc,
                    gu,
                    goal,
                    j as int,
                    vis_c2,
                    vis_u2,
                    gc.edges@[j as int]@.len() as int,
                    a2,
                );
                assert(j2 != gl) by {
                    if j2 == gl {
                        assert(jc[j as int] == jc[goal]);
                    }
                }
                let b2 = longest_via(gu, gl, j2, vis_u2, gu.edges@[j2]@.len() as int)->0;
                lemma_via_ge(gu, gl, cu, vis_u, gu.edges@[cu]@.len() as int, e2, b2 + w);
            }
        }
    }
}

/// Without the slope rule a hike is never shorter: for graphs that contract
/// one map with slopes obeyed and without the rule, as `build_graph` returns
/// them, when the first has a walk from the entry to the exit, so has the
/// second, and its longest is at least as long.
#[verifier::rlimit(100)]
pub proof fn lemma_unconstrained_not_shorter(t: Trail, gc: Graph, gu: Graph)
    requires
        gc.contracts(t, Mode::Constrained),
        gc.no_isolated_junction(),
        gu.contracts(t, Mode::Unconstrained),
        gu.no_isolated_junction(),
        longest(gc) is Some,
    ensures
        longest(gu) matches Some(u) && u >= longest(gc)->0,
{
    lemma_sole_gap_unique(t, 0, gc.entry as int, gu.entry as int);
    lemma_sole_gap_unique(t, t.tiles@.len() - t.width, gc.exit as int, gu.exit as int);
    let jc = gc.junctions@;
    let ju = gu.junctions@;
    let kc = choose|k: int| 0 <= k < jc.len() && jc[k] == gc.exit;
    lemma_junction_kept(t, gc, gu, kc);
    let ku = choose|k: int| 0 <= k < ju.len() && ju[k] == gu.exit;
    assert forall|k: int| 0 <= k < ju.len() && ju[k] == gu.exit implies k == ku by {}
    if kc == 0 {
        assert(ku == 0) by {
            assert(ju[0] == jc[0]);
        }
    } else {
        assert(ku != 0) by {
            if ku == 0 {
                assert(jc[kc] == jc[0]);
            }
        }
        let vc = Seq::new(jc.len(), |i: int| i == 0);
        let vu = Seq::new(ju.len(), |i: int| i == 0);
        let c = longest(gc)->0;
        assert forall|j2: int| 0 <= j2 < vu.len() && #[trigger] vu[j2] implies exists|j1: int|
            0 <= j1 < vc.len() && ju[j2] == jc[j1] && vc[j1] by {
            assert(ju[0] == jc[0] && vc[0]);
        }
        lemma_embed(t, gc, gu, kc, 0, vc, vu, gc.edges@[0]@.len() as int, c);
        assert(ju[0] == jc[0]);
        assert(longest_via(gu, ku, 0, vu, gu.edges@[0]@.len() as int) matches Some(b) && b >= c);
    }
}

/// Without the slope rule a hike is never shorter: when the search on a map
/// with slopes obeyed finds a length, the search without the rule on the
/// same map does not report "no path", and any length it finds is at least
/// as long.
pub proof fn lemma_hike_not_shorter(t: Trail, c: u128, r: Result<u128, HikeError>)
    requires
        t.wf(),
        hike_result(t, Mode::Constrained, Ok(c)),
        hike_result(t, Mode::Unconstrained, r),
    ensures
        !(r matches Err(HikeError::NoPath)),
        r matches Ok(u) ==> u >= c,
{
    let gc = choose|g: Graph|
        #[trigger] g.contracts(t, Mode::Constrained) && g.no_isolated_junction() && longest(g)
            == Some(c as int);
    match r {
        Ok(u) => {
            let gu = choose|g: Graph|
                #[trigger] g.contracts(t, Mode::Unconstrained) && g.no_isolated_junction()
                    && longest(g) == Some(u as int);
            lemma_unconstrained_not_shorter(t, gc, gu);
        },
        Err(HikeError::NoPath) => {
            let gu = choose|g: Graph|
                #[trigger] g.contracts(t, Mode::Unconstrained) && g.no_isolated_junction()
                    && longest(g) is None;
            lemma_unconstrained_not_shorter(t, gc, gu);
        },
        _ => {},
    }
}

/// The length of the longest simple walk from the entry junction to the exit
/// junction; `None` when the exit cannot be reached.
pub fn longest_path(g: &Graph) -> (r: Option<u128>)
    requires
        g.wf(),
    ensures
        as_int(r) == longest(*g),
{
    match index_of(&g.junctions, g.exit) {
        None => None,
        Some(goal) => {
            proof {
                assert(forall|k: int|
                    0 <= k < g.junctions@.len() && g.junctions@[k] == g.exit ==> k == goal);
            }
            if goal == 0 {
                return Some(0);
            }
            let n = g.junctions.len();
            let mut vis: Vec<bool> = Vec::new();
            let mut i: usize = 0;
            while i < n
                invariant
                    i <= n,
                    n == g.junctions@.len(),
                    vis@ == Seq::new(i as nat, |a: int| a == 0),
                decreases n - i,
            {
                vis.push(i == 0);
                i = i + 1;
                assert(vis@ =~= Seq::new(i as nat, |a: int| a == 0));
            }
            search(g, goal, 0, &mut vis)
        },
    }
}

/// Why no hike length could be given.
#[derive(Debug, PartialEq, Eq, Clone, Copy, Structural)]
pub enum HikeError {
    Parse(ParseError),
    Build(BuildError),
    /// The exit cannot be reached from the entry.
    NoPath,
}

/// What a hike search over map `t` in `mode` may answer: a length is the
/// longest walk of a junction graph that contracts the map, "no path" means
/// that graph has no walk to the exit, and each build error comes exactly when
/// the map has the defect it names.
pub open spec fn hike_result(t: Trail, mode: Mode, r: Result<u128, HikeError>) -> bool {
    &&& r matches Ok(v) ==> exists|g: Graph|
        #[trigger] g.contracts(t, mode) && g.no_isolated_junction() && longest(g) == Some(v as int)
    &&& r matches Err(HikeError::NoPath) ==> exists|g: Graph|
        #[trigger] g.contracts(t, mode) && g.no_isolated_junction() && longest(g) is None
    &&& (r matches Err(HikeError::Build(BuildError::NoEntry))) <==> forall|id: int|
        !is_entry(t, id)
    &&& (r matches Err(HikeError::Build(BuildError::NoExit))) <==> (exists|id: int|
        is_entry(t, id)) && forall|id: int| !is_exit(t, id)
    &&& r matches Err(HikeError::Build(BuildError::Lost(c))) ==> exists|entry: int, exit: int, d: Dir|
        is_entry(t, entry) && is_exit(t, exit) && is_junction(t, entry, exit, c as int)
            && reached_junction(t, mode, entry, exit, c as int) && can_step(t, mode, c as int, d)
            && #[trigger] corridor(t, mode, entry, exit, c as int, d) == Corridor::Lost
    &&& !(r matches Err(HikeError::Parse(_)))
}

/// The longest hike over a map: contracts it into its junction graph and
/// searches that graph.
pub fn longest_hike(t: &Trail, mode: Mode) -> (r: Result<u128, HikeError>)
    requires
        t.wf(),
    ensures
        hike_result(*t, mode, r),
{
    match build_graph(t, mode) {
        Err(e) => Err(HikeError::Build(e)),
        Ok(g) => match longest_path(&g) {
            Some(v) => Ok(v),
            None => Err(HikeError::NoPath),
        },
    }
}

/// The longest hike over a map, slopes crossed only in their direction.
pub fn solve_1(t: &Trail) -> (r: Result<u128, HikeError>)
    requires
        t.wf(),
    ensures
        hike_result(*t, Mode::Constrained, r),
{
    longest_hike(t, Mode::Constrained)
}

/// Both answers for a map text, one per mode: the longest hike with slopes
/// obeyed, and the longest hike with slopes read as plain paths. Each run
/// has its own outcome, so one may fail while the other succeeds.
pub fn solve(input: &str) -> (r: (Result<u128, HikeError>, Result<u128, HikeError>))
    ensures
        !valid_text(map_body(input.spec_bytes())) <==> (r.0 matches Err(HikeError::Parse(_))),
        !valid_text(map_body(input.spec_bytes())) <==> (r.1 matches Err(HikeError::Parse(_))),
        valid_text(map_body(input.spec_bytes())) ==> exists|t1: Trail, t2: Trail|
            #[trigger] decodes_to(map_body(input.spec_bytes()), t1, true) && #[trigger] decodes_to(
                map_body(input.spec_bytes()),
                t2,
                false,
            ) && hike_result(t1, Mode::Constrained, r.0) && hike_result(
                t2,
                Mode::Unconstrained,
                r.1,
            ),
{
    let t1 = match parse(input) {
        Ok(t) => t,
        Err(e) => {
            return (Err(HikeError::Parse(e)), Err(HikeError::Parse(e)));
        },
    };
    let t2 = match parse_for_part2(input) {
        Ok(t) => t,
        Err(e) => {
            return (Err(HikeError::Parse(e)), Err(HikeError::Parse(e)));
        },
    };
    (longest_hike(&t1, Mode::Constrained), longest_hike(&t2, Mode::Unconstrained))
}

} // verus!
