use vstd::prelude::*;

verus! {

/// The largest tile value; a wall joined to the left or bottom border.
pub const TILE_MAX: u16 = 65535;

/// The abstract state of a tile grid: the tile values, row after row, and the
/// wall counter.
pub struct GridModel {
    pub cells: Seq<u16>,
    pub walls: u16,
}

/// Value of a wall joined to the left or bottom border.
pub open spec fn wall_one() -> u16 {
    TILE_MAX
}

/// Value of a wall joined to the top or right border.
pub open spec fn wall_two() -> u16 {
    (TILE_MAX - 1) as u16
}

/// Value of a wall joined to no border.
pub open spec fn wall_three() -> u16 {
    (TILE_MAX - 2) as u16
}

/// A tile at or above this value is drawn as a wall.
pub open spec fn is_wall_value(v: u16) -> bool {
    v >= wall_three()
}

/// The tile value at column `x`, row `y` of a grid `w` tiles wide.
pub open spec fn at(c: Seq<u16>, w: int, x: int, y: int) -> u16 {
    c[x + y * w]
}

pub open spec fn in_grid(w: int, h: int, x: int, y: int) -> bool {
    0 <= x < w && 0 <= y < h
}

pub open spec fn interior(w: int, h: int, x: int, y: int) -> bool {
    1 <= x && x + 1 < w && 1 <= y && y + 1 < h
}

/// Every border tile holds a wall joined to a border.
pub open spec fn border_walled(c: Seq<u16>, w: int, h: int) -> bool {
    forall|x: int, y: int|
        in_grid(w, h, x, y) && !interior(w, h, x, y) ==> at(c, w, x, y) >= wall_two()
}

/// No border tile holds a loose wall: a wall request never passes its kind on
/// to a border tile.
pub open spec fn no_loose_border(c: Seq<u16>, w: int, h: int) -> bool {
    forall|x: int, y: int|
        in_grid(w, h, x, y) && !interior(w, h, x, y) ==> at(c, w, x, y) != wall_three()
}

/// The row offset of the `k`-th neighbour, in the order in which walls are scanned.
pub open spec fn off_dy(k: int) -> int {
    if k == 0 || k == 3 || k == 5 {
        0
    } else if k == 1 || k == 6 {
        1
    } else {
        2
    }
}

/// The column offset of the `k`-th neighbour.
pub open spec fn off_dx(k: int) -> int {
    if k <= 2 {
        0
    } else if k <= 4 {
        1
    } else {
        2
    }
}

pub open spec fn nbr_x(x: int, k: int) -> int {
    x + off_dx(k) - 1
}

pub open spec fn nbr_y(y: int, k: int) -> int {
    y + off_dy(k) - 1
}

/// Some of the eight neighbours of `(x, y)` holds the value `v`.
pub open spec fn has_nbr(c: Seq<u16>, w: int, x: int, y: int, v: u16) -> bool {
    exists|k: int| 0 <= k < 8 && #[trigger] at(c, w, nbr_x(x, k), nbr_y(y, k)) == v
}

/// The wall kind opposite to `t`.
pub open spec fn opposite(t: u16) -> u16 {
    if t == wall_one() {
        wall_two()
    } else {
        wall_one()
    }
}

/// A loose wall that a flood of kind `t` may take over: it has no neighbour of
/// the opposite kind.
pub open spec fn clean(c: Seq<u16>, w: int, h: int, t: u16, x: int, y: int) -> bool {
    &&& interior(w, h, x, y)
    &&& at(c, w, x, y) == wall_three()
    &&& !has_nbr(c, w, x, y, opposite(t))
}

/// The tiles that a flood of kind `t` started at `(x, y)` reaches in `n` moves
/// between neighbouring clean walls.
pub open spec fn level(c: Seq<u16>, w: int, h: int, t: u16, x: int, y: int, n: nat) -> Set<(int, int)>
    decreases n,
{
    if n == 0 {
        set![(x, y)]
    } else {
        let prev = level(c, w, h, t, x, y, (n - 1) as nat);
        prev.union(
            Set::new(
                |p: (int, int)|
                    clean(c, w, h, t, p.0, p.1) && exists|k: int|
                        0 <= k < 8 && #[trigger] prev.contains((nbr_x(p.0, k), nbr_y(p.1, k))),
            ),
        )
    }
}

/// `(a, b)` is reached by the flood of kind `t` started at `(x, y)`.
pub open spec fn reach(c: Seq<u16>, w: int, h: int, t: u16, x: int, y: int, a: int, b: int) -> bool {
    exists|n: nat| #[trigger] level(c, w, h, t, x, y, n).contains((a, b))
}

/// The grid after a flood of kind `t` from `(x, y)`: every reached tile takes
/// the value `t`.
pub open spec fn flood(c: Seq<u16>, w: int, h: int, t: u16, x: int, y: int) -> Seq<u16> {
    Seq::new(
        c.len(),
        |i: int|
            if i < w * h && reach(c, w, h, t, x, y, i % w, i / w) {
                t
            } else {
                c[i]
            },
    )
}

/// A wall at `(x, y)` would not join a wall of the left and bottom border to one
/// of the top and right border.
pub open spec fn wall_allowed(c: Seq<u16>, w: int, x: int, y: int) -> bool {
    !(has_nbr(c, w, x, y, wall_one()) && has_nbr(c, w, x, y, wall_two()))
}

/// The grid after a request for a wall at `(x, y)`.
pub open spec fn placed(m: GridModel, w: int, h: int, x: int, y: int) -> GridModel {
    let ones = has_nbr(m.cells, w, x, y, wall_one());
    let twos = has_nbr(m.cells, w, x, y, wall_two());
    let walls = if at(m.cells, w, x, y) < wall_three() {
        (m.walls + 1) as u16
    } else {
        m.walls
    };
    let i = x + y * w;
    if ones && twos {
        GridModel { cells: m.cells, walls }
    } else if ones {
        GridModel { cells: flood(m.cells.update(i, wall_one()), w, h, wall_one(), x, y), walls }
    } else if twos {
        GridModel { cells: flood(m.cells.update(i, wall_two()), w, h, wall_two(), x, y), walls }
    } else {
        GridModel { cells: m.cells.update(i, wall_three()), walls }
    }
}

/// The number of loose walls.
pub open spec fn count_loose(c: Seq<u16>) -> nat
    decreases c.len(),
{
    if c.len() == 0 {
        0
    } else {
        count_loose(c.drop_last()) + if c.last() == wall_three() {
            1nat
        } else {
            0nat
        }
    }
}

/// The tile at `(x, y)` of a fresh grid: the left and bottom borders are walls
/// of the first kind, the top and right borders walls of the second kind, the
/// right column winning its corners and the left column the others.
pub open spec fn fresh_tile(w: int, h: int, x: int, y: int) -> u16 {
    if x == w - 1 {
        wall_two()
    } else if x == 0 {
        wall_one()
    } else if y == h - 1 {
        wall_one()
    } else if y == 0 {
        wall_two()
    } else {
        0
    }
}

/// A fresh grid of `size` cells, `w` wide.
pub open spec fn fresh_grid(w: int, size: int) -> GridModel {
    let h = size / w;
    GridModel {
        cells: Seq::new(
            size as nat,
            |i: int|
                if 0 < w && 0 < h && i < w * h {
                    fresh_tile(w, h, i % w, i / w)
                } else {
                    0
                },
        ),
        walls: 0,
    }
}

/// How a tile is drawn.
pub open spec fn tile_char(v: u16) -> char {
    if v > TILE_MAX - 3 {
        '#'
    } else {
        ' '
    }
}

/// The first `n` tiles of row `y`, drawn.
pub open spec fn row_text(c: Seq<u16>, w: int, y: int, n: nat) -> Seq<char>
    decreases n,
{
    if n == 0 {
        Seq::empty()
    } else {
        row_text(c, w, y, (n - 1) as nat).push(tile_char(at(c, w, n - 1, y)))
    }
}

/// The first `n` rows, each drawn after a line break.
pub open spec fn rows_text(c: Seq<u16>, w: int, n: nat) -> Seq<char>
    decreases n,
{
    if n == 0 {
        Seq::empty()
    } else {
        rows_text(c, w, (n - 1) as nat).push('\n') + row_text(c, w, n - 1, w as nat)
    }
}

pub open spec fn digit_char(d: int) -> char {
    if d == 0 {
        '0'
    } else if d == 1 {
        '1'
    } else if d == 2 {
        '2'
    } else if d == 3 {
        '3'
    } else if d == 4 {
        '4'
    } else if d == 5 {
        '5'
    } else if d == 6 {
        '6'
    } else if d == 7 {
        '7'
    } else if d == 8 {
        '8'
    } else {
        '9'
    }
}

/// The decimal digits of `n`.
pub open spec fn decimal(n: nat) -> Seq<char>
    decreases n,
{
    if n < 10 {
        seq![digit_char(n as int)]
    } else {
        decimal(n / 10).push(digit_char((n % 10) as int))
    }
}

/// The drawing of a grid: its rows, each after a line break, then a line with
/// the wall counter.
pub open spec fn grid_text(m: GridModel, w: int, h: int) -> Seq<char> {
    rows_text(m.cells, w, h as nat).push('\n') + decimal(m.walls as nat)
}

/// The column or row after `i`; past the grid's edge it stays at the edge.
pub open spec fn next_index(i: int, bound: int) -> int {
    if i < bound {
        i + 1
    } else {
        bound
    }
}

/// The grid after reading the drawing `s`, starting at column `col` of row
/// `row`: every `#` inside the borders asks for a wall, a line break starts
/// the next row.
pub open spec fn read_text(m: GridModel, s: Seq<char>, w: int, h: int, col: int, row: int) -> GridModel
    decreases s.len(),
{
    if s.len() == 0 {
        m
    } else if s[0] == '\n' {
        read_text(m, s.drop_first(), w, h, 0, next_index(row, h))
    } else {
        let m2 = if s[0] == '#' && interior(w, h, col, row) {
            placed(m, w, h, col, row)
        } else {
            m
        };
        read_text(m2, s.drop_first(), w, h, next_index(col, w), row)
    }
}

/// The number of `#` inside the borders of the drawing `s`, read from column
/// `col` of row `row`.
pub open spec fn text_requests(s: Seq<char>, w: int, h: int, col: int, row: int) -> nat
    decreases s.len(),
{
    if s.len() == 0 {
        0
    } else if s[0] == '\n' {
        text_requests(s.drop_first(), w, h, 0, next_index(row, h))
    } else {
        text_requests(s.drop_first(), w, h, next_index(col, w), row) + if s[0] == '#' && interior(
            w,
            h,
            col,
            row,
        ) {
            1nat
        } else {
            0nat
        }
    }
}

// ---------------------------------------------------------------------------
// Index arithmetic
pub proof fn lemma_index_in_range(w: int, h: int, x: int, y: int)
    requires
        in_grid(w, h, x, y),
    ensures
        0 <= x + y * w < w * h,
{
    assert(0 <= y * w) by (nonlinear_arith)
        requires
            0 <= y,
            0 <= w,
    ;
    assert(x + y * w < w * h) by (nonlinear_arith)
        requires
            0 <= x < w,
            0 <= y < h,
    ;
}

pub proof fn lemma_index_unique(w: int, h: int, x: int, y: int, a: int, b: int)
    requires
        in_grid(w, h, x, y),
        in_grid(w, h, a, b),
        x + y * w == a + b * w,
    ensures
        x == a,
        y == b,
{
    assert(y == b) by (nonlinear_arith)
        requires
            0 <= x < w,
            0 <= a < w,
            x + y * w == a + b * w,
    ;
}

pub proof fn lemma_index_split(w: int, h: int, i: int)
    requires
        0 < w,
        0 <= i < w * h,
    ensures
        in_grid(w, h, i % w, i / w),
        i == i % w + (i / w) * w,
{
    vstd::arithmetic::div_mod::lemma_fundamental_div_mod(i, w);
    assert(i / w < h) by (nonlinear_arith)
        requires
            0 < w,
            0 <= i < w * h,
            i == w * (i / w) + i % w,
            0 <= i % w < w,
    ;
    assert(0 <= i / w) by (nonlinear_arith)
        requires
            0 < w,
            0 <= i,
            i == w * (i / w) + i % w,
            i % w < w,
    ;
    assert(i == i % w + (i / w) * w) by (nonlinear_arith)
        requires
            i == w * (i / w) + i % w,
    ;
}

pub proof fn lemma_index_coords(w: int, h: int, x: int, y: int)
    requires
        in_grid(w, h, x, y),
    ensures
        (x + y * w) % w == x,
        (x + y * w) / w == y,
{
    lemma_index_in_range(w, h, x, y);
    lemma_index_split(w, h, x + y * w);
    let i = x + y * w;
    lemma_index_unique(w, h, x, y, i % w, i / w);
}

pub proof fn lemma_at_update(c: Seq<u16>, w: int, h: int, x: int, y: int, v: u16, a: int, b: int)
    requires
        in_grid(w, h, x, y),
        in_grid(w, h, a, b),
        c.len() >= w * h,
    ensures
        at(c.update(x + y * w, v), w, a, b) == if a == x && b == y {
            v
        } else {
            at(c, w, a, b)
        },
{
    lemma_index_in_range(w, h, x, y);
    lemma_index_in_range(w, h, a, b);
    if a + b * w == x + y * w {
        lemma_index_unique(w, h, x, y, a, b);
    }
}

/// The offsets come in opposite pairs: `k` and `7 - k`.
pub proof fn lemma_nbr_symmetric(x: int, y: int, k: int)
    requires
        0 <= k < 8,
    ensures
        nbr_x(nbr_x(x, k), 7 - k) == x,
        nbr_y(nbr_y(y, k), 7 - k) == y,
        (nbr_x(x, k), nbr_y(y, k)) != (x, y),
{
}

pub proof fn lemma_nbr_of_interior(w: int, h: int, x: int, y: int, k: int)
    requires
        interior(w, h, x, y),
        0 <= k < 8,
    ensures
        in_grid(w, h, nbr_x(x, k), nbr_y(y, k)),
{
}

} // verus!
