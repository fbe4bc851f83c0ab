use vstd::prelude::*;
use crate::bug::grid_spec::{
    GridModel, TILE_MAX, at, border_walled, no_loose_border, clean, count_loose, has_nbr, in_grid, interior, nbr_x, nbr_y,
    off_dx, off_dy, placed, fresh_grid, grid_text, rows_text, row_text, decimal, digit_char, lemma_index_coords, read_text, text_requests, wall_allowed, wall_one, wall_three, wall_two, lemma_at_update,
    lemma_index_in_range, lemma_nbr_of_interior, lemma_nbr_symmetric, lemma_index_unique,
};
use crate::bug::flood_lemmas::{
    changes_ok, closure_ok, flood_kind, tail_same,
    lemma_cascade_measure, lemma_cascade_step, lemma_flood_complete, lemma_reach_clean,
    lemma_reach_start, lemma_grid_ext, lemma_placed_border, lemma_placed_frame,
};

verus! {

pub type Tile = u16;

#[derive(Clone, Copy)]
pub struct TileGrid<const WIDTH: usize, const SIZE: usize> {
    pub(crate) tiles: [Tile; SIZE],
    pub walls: u16,
}

impl<const WIDTH: usize, const SIZE: usize> View for TileGrid<WIDTH, SIZE> {
    type V = GridModel;

    closed spec fn view(&self) -> GridModel {
        GridModel { cells: self.tiles@, walls: self.walls }
    }
}

/// The row and column offsets of the `k`-th neighbour of a tile, in the order
/// in which a new wall looks at its neighbours.
fn neighbor_offset(k: usize) -> (r: (usize, usize))
    requires
        k < 8,
    ensures
        r.0 == off_dy(k as int),
        r.1 == off_dx(k as int),
{
    match k {
        0 => (0, 0),
        1 => (1, 0),
        2 => (2, 0),
        3 => (0, 1),
        4 => (2, 1),
        5 => (0, 2),
        6 => (1, 2),
        _ => (2, 2),
    }
}

impl<const WIDTH: usize, const SIZE: usize> TileGrid<WIDTH, SIZE> {
    pub(crate) proof fn lemma_walls(&self)
        ensures
            self@.walls == self.walls,
    {
    }

    /// The number of rows.
    pub open spec fn height() -> int {
        SIZE as int / WIDTH as int
    }

    pub proof fn lemma_shape(&self)
        ensures
            self@.cells.len() == SIZE,
            WIDTH > 0 ==> WIDTH * Self::height() <= SIZE,
            WIDTH > 0 ==> Self::height() <= SIZE,
    {
        if WIDTH > 0 {
            vstd::arithmetic::div_mod::lemma_div_is_ordered_by_denominator(SIZE as int, 1, WIDTH as int);
            vstd::arithmetic::div_mod::lemma_fundamental_div_mod(SIZE as int, WIDTH as int);
            assert(WIDTH * Self::height() <= SIZE) by (nonlinear_arith)
                requires
                    SIZE as int == WIDTH as int * (SIZE as int / WIDTH as int) + SIZE as int % WIDTH as int,
                    SIZE as int % WIDTH as int >= 0,
            ;
        }
    }

    pub fn set(&mut self, x: usize, y: usize, value: Tile)
        requires
            x + y * WIDTH < SIZE,
        ensures
            final(self)@.cells == old(self)@.cells.update(x + y * WIDTH, value),
            final(self)@.walls == old(self)@.walls,
    {
        self.tiles[x + y * WIDTH] = value;
    }

    pub fn get(&self, x: usize, y: usize) -> (v: Tile)
        requires
            x + y * WIDTH < SIZE,
        ensures
            v == self@.cells[x + y * WIDTH],
    {
        self.tiles[x + y * WIDTH]
    }

    /// Puts a wall at `(x, y)`, unless the wall would join a wall of the left
    /// and bottom border to one of the top and right border; says whether it
    /// did.  A new wall takes the kind of the walls it touches, and passes that
    /// kind on to the loose walls it joins.  The wall counter counts every
    /// request on an open tile, granted or not.
    pub fn set_wall(&mut self, x: usize, y: usize) -> (ok: bool)
        requires
            interior(WIDTH as int, Self::height(), x as int, y as int),
            no_loose_border(old(self)@.cells, WIDTH as int, Self::height()),
            at(old(self)@.cells, WIDTH as int, x as int, y as int) < wall_three() ==> old(self)@.walls < TILE_MAX,
        ensures
            final(self)@ == placed(old(self)@, WIDTH as int, Self::height(), x as int, y as int),
            ok == wall_allowed(old(self)@.cells, WIDTH as int, x as int, y as int),
            no_loose_border(final(self)@.cells, WIDTH as int, Self::height()),
            old(self).well_formed() ==> final(self).well_formed(),
        decreases
            2 * count_loose(old(self)@.cells) + if at(old(self)@.cells, WIDTH as int, x as int, y as int)
                == wall_three() {
                0int
            } else {
                1int
            },
    {
        let ghost w = WIDTH as int;
        let ghost h = Self::height();
        proof {
            self.lemma_shape();
            lemma_index_in_range(w, h, x as int, y as int);
            lemma_placed_frame(self@, w, h, x as int, y as int);
            if border_walled(self@.cells, w, h) {
                lemma_placed_border(self@, w, h, x as int, y as int);
            }
        }
        let ghost old_cells = self@.cells;
        if self.get(x, y) < TILE_MAX - 2 {
            self.walls += 1;
        }
        let ghost m1 = self@;
        let mut type_ones: u32 = 0;
        let mut type_twos: u32 = 0;
        let mut type_threes: Vec<(usize, usize)> = Vec::new();
        let ghost mut ks: Seq<int> = Seq::empty();
        let mut k: usize = 0;
        while k < 8
            invariant
                self@ == m1,
                m1.cells == old_cells,
                old_cells.len() == SIZE,
                w * h <= SIZE,
                h <= SIZE,
                0 < w,
                w == WIDTH as int,
                h == Self::height(),
                interior(w, h, x as int, y as int),
                k <= 8,
                type_ones <= k,
                type_twos <= k,
                type_ones > 0 <==> exists|j: int| 0 <= j < k && #[trigger] at(old_cells, w, nbr_x(x as int, j), nbr_y(y as int, j)) == wall_one(),
                type_twos > 0 <==> exists|j: int| 0 <= j < k && #[trigger] at(old_cells, w, nbr_x(x as int, j), nbr_y(y as int, j)) == wall_two(),
                ks.len() == type_threes@.len(),
                forall|j: int| 0 <= j < ks.len() ==> 0 <= #[trigger] ks[j] < k,
                forall|j: int| 0 <= j < ks.len() ==> type_threes@[j].0 == nbr_x(x as int, #[trigger] ks[j]) && type_threes@[j].1 == nbr_y(y as int, ks[j]),
                forall|j: int| 0 <= j < ks.len() ==> at(old_cells, w, nbr_x(x as int, #[trigger] ks[j]), nbr_y(y as int, ks[j])) == wall_three(),
                forall|j: int| 0 <= j < k && #[trigger] at(old_cells, w, nbr_x(x as int, j), nbr_y(y as int, j)) == wall_three() ==> ks.contains(j),
            decreases 8 - k,
        {
            let (dy, dx) = neighbor_offset(k);
            proof {
                lemma_nbr_of_interior(w, h, x as int, y as int, k as int);
                lemma_index_in_range(w, h, nbr_x(x as int, k as int), nbr_y(y as int, k as int));
            }
            assert(in_grid(w, h, nbr_x(x as int, k as int), nbr_y(y as int, k as int)));
            assert(nbr_x(x as int, k as int) + nbr_y(y as int, k as int) * w < w * h);
            assert(x + dx - 1 == nbr_x(x as int, k as int));
            assert(y + dy - 1 == nbr_y(y as int, k as int));
            let nx = x + dx - 1;
            let ny = y + dy - 1;
            assert(nx + ny * WIDTH == nbr_x(x as int, k as int) + nbr_y(y as int, k as int) * w);
            let pos = (nx, ny);
            let val = self.get(nx, ny);
            assert(val == at(old_cells, w, nbr_x(x as int, k as int), nbr_y(y as int, k as int)));
            let ghost ks_old = ks;
            match TILE_MAX - val {
                0 => {
                    type_ones += 1;
                },
                1 => {
                    type_twos += 1;
                },
                2 => {
                    type_threes.push(pos);
                    proof {
                        ks = ks.push(k as int);
                    }
                },
                _ => {},
            }
            proof {
                assert forall|j: int| 0 <= j < k + 1 && #[trigger] at(old_cells, w, nbr_x(x as int, j), nbr_y(y as int, j)) == wall_three() implies ks.contains(j) by {
                    if j == k {
                        assert(ks[ks.len() - 1] == j);
                    } else {
                        assert(ks_old.contains(j));
                        let i = choose|i: int| 0 <= i < ks_old.len() && ks_old[i] == j;
                        assert(ks[i] == j);
                    }
                }
            }
            k += 1;
        }
        assert(type_ones > 0 <==> has_nbr(old_cells, w, x as int, y as int, wall_one()));
        assert(type_twos > 0 <==> has_nbr(old_cells, w, x as int, y as int, wall_two()));
        if type_ones > 0 && type_twos > 0 {
            return false;
        }
        if type_ones > 0 || type_twos > 0 {
            let t: Tile = if type_ones > 0 {
                TILE_MAX
            } else {
                TILE_MAX - 1
            };
            self.set(x, y, t);
            let ghost g = self@.cells;
            proof {
                assert(g == old_cells.update(x + y * w, t));
                lemma_at_update(old_cells, w, h, x as int, y as int, t, x as int, y as int);
                lemma_reach_start(g, w, h, t, x as int, y as int);
            }
            let mut j: usize = 0;
            while j < type_threes.len()
                invariant
                    self@.walls == m1.walls,
                    self@.cells.len() == SIZE,
                    g.len() == SIZE,
                    w * h <= SIZE,
                    0 < w,
                    w == WIDTH as int,
                    h == Self::height(),
                    0 <= x + y * w < SIZE,
                    g == old_cells.update(x + y * w, t),
                    old_cells == old(self)@.cells,
                    old_cells.len() == SIZE,
                    interior(w, h, x as int, y as int),
                    no_loose_border(old_cells, w, h),
                    flood_kind(t),
                    at(g, w, x as int, y as int) == t,
                    j <= type_threes@.len(),
                    ks.len() == type_threes@.len(),
                    forall|i: int| 0 <= i < ks.len() ==> 0 <= #[trigger] ks[i] < 8,
                    forall|i: int| 0 <= i < ks.len() ==> type_threes@[i].0 == nbr_x(x as int, #[trigger] ks[i]) && type_threes@[i].1 == nbr_y(y as int, ks[i]),
                    forall|i: int| 0 <= i < ks.len() ==> at(old_cells, w, nbr_x(x as int, #[trigger] ks[i]), nbr_y(y as int, ks[i])) == wall_three(),
                    changes_ok(self@.cells, g, w, h, t, x as int, y as int),
                    closure_ok(self@.cells, g, w, h, t),
                    tail_same(self@.cells, g, w, h),
                    forall|i: int| 0 <= i < j && clean(g, w, h, t, nbr_x(x as int, #[trigger] ks[i]), nbr_y(y as int, ks[i])) ==> at(self@.cells, w, nbr_x(x as int, ks[i]), nbr_y(y as int, ks[i])) == t,
                decreases type_threes@.len() - j,
            {
                let (x2, y2) = type_threes[j];
                let ghost kj = ks[j as int];
                let ghost e = self@.cells;
                assert(x2 == nbr_x(x as int, kj));
                assert(at(old_cells, w, x2 as int, y2 as int) == wall_three());
                proof {
                    lemma_nbr_of_interior(w, h, x as int, y as int, kj);
                    lemma_nbr_symmetric(x as int, y as int, kj);
                    assert(interior(w, h, x2 as int, y2 as int));
                    lemma_at_update(old_cells, w, h, x as int, y as int, t, x2 as int, y2 as int);
                    lemma_cascade_measure(old_cells, e, w, h, t, x as int, y as int, x2 as int, y2 as int);
                    assert forall|a: int, b: int| in_grid(w, h, a, b) && !interior(w, h, a, b) implies at(e, w, a, b) != wall_three() by {
                        lemma_at_update(old_cells, w, h, x as int, y as int, t, a, b);
                        if at(e, w, a, b) != at(g, w, a, b) {
                            lemma_reach_clean(g, w, h, t, x as int, y as int, a, b);
                        }
                    }
                    if at(e, w, x2 as int, y2 as int) != at(g, w, x2 as int, y2 as int) {
                        assert(at(e, w, x2 as int, y2 as int) == t);
                    }
                }
                assert(interior(WIDTH as int, Self::height(), x2 as int, y2 as int));
                assert(no_loose_border(e, WIDTH as int, Self::height()));
                self.set_wall(x2, y2);
                proof {
                    lemma_cascade_step(e, self@.cells, g, w, h, t, x as int, y as int, x2 as int, y2 as int, kj, m1.walls);
                    assert(self@.walls == m1.walls);
                }
                j += 1;
            }
            proof {
                assert forall|kk: int| 0 <= kk < 8 && #[trigger] clean(g, w, h, t, nbr_x(x as int, kk), nbr_y(y as int, kk)) implies at(self@.cells, w, nbr_x(x as int, kk), nbr_y(y as int, kk)) == t by {
                    lemma_nbr_of_interior(w, h, x as int, y as int, kk);
                    lemma_nbr_symmetric(x as int, y as int, kk);
                    lemma_at_update(old_cells, w, h, x as int, y as int, t, nbr_x(x as int, kk), nbr_y(y as int, kk));
                    assert(at(old_cells, w, nbr_x(x as int, kk), nbr_y(y as int, kk)) == wall_three());
                    assert(ks.contains(kk));
                    let i = choose|i: int| 0 <= i < ks.len() && ks[i] == kk;
                    assert(ks[i] == kk);
                }
                lemma_flood_complete(self@.cells, g, w, h, t, x as int, y as int);
            }
            return true;
        }
        self.set(x, y, TILE_MAX - 2);
        true
    }
}


impl<const WIDTH: usize, const SIZE: usize> Default for TileGrid<WIDTH, SIZE> {
    /// A grid whose left and bottom borders are walls of the first kind and
    /// whose top and right borders are walls of the second kind.  A grid too
    /// small to hold one row is left empty.
    fn default() -> (grid: Self)
        ensures
            grid@ == fresh_grid(WIDTH as int, SIZE as int),
    {
        let mut grid = TileGrid { tiles: [0; SIZE], walls: 0 };
        proof {
            grid.lemma_shape();
        }
        let ghost w = WIDTH as int;
        let ghost h = SIZE as int / WIDTH as int;
        if WIDTH == 0 || SIZE / WIDTH == 0 {
            assert(grid@.cells =~= fresh_grid(w, SIZE as int).cells);
            return grid;
        }
        let height = SIZE / WIDTH;
        proof {
            broadcast use vstd::array::group_array_axioms;
            assert forall|a: int, b: int| in_grid(w, h, a, b) implies #[trigger] at(grid@.cells, w, a, b) == 0u16 by {
                lemma_index_in_range(w, h, a, b);
            }
        }
        for x in 0..WIDTH
            invariant
                w == WIDTH as int,
                h == height as int,
                h == TileGrid::<WIDTH, SIZE>::height(),
                0 < w,
                0 < h,
                w * h <= SIZE,
                grid@.cells.len() == SIZE,
                grid@.walls == 0,
                forall|i: int| w * h <= i < SIZE ==> grid@.cells[i] == 0,
                forall|a: int, b: int|
                    in_grid(w, h, a, b) ==> #[trigger] at(grid@.cells, w, a, b) == if a < x && b == h - 1 {
                        wall_one()
                    } else if a < x && b == 0 {
                        wall_two()
                    } else {
                        0u16
                    },
        {
            proof {
                lemma_index_in_range(w, h, x as int, 0);
                lemma_index_in_range(w, h, x as int, h - 1);
            }
            let ghost c0 = grid@.cells;
            grid.set(x, 0, TILE_MAX - 1);
            let ghost c1 = grid@.cells;
            grid.set(x, SIZE / WIDTH - 1, TILE_MAX);
            proof {
                assert forall|a: int, b: int| in_grid(w, h, a, b) implies #[trigger] at(grid@.cells, w, a, b) == if a < x + 1 && b == h - 1 {
                    wall_one()
                } else if a < x + 1 && b == 0 {
                    wall_two()
                } else {
                    0u16
                } by {
                    lemma_at_update(c0, w, h, x as int, 0, wall_two(), a, b);
                    lemma_at_update(c1, w, h, x as int, h - 1, wall_one(), a, b);
                }
            }
        }
        for y in 0..height
            invariant
                w == WIDTH as int,
                h == height as int,
                0 < w,
                0 < h,
                w * h <= SIZE,
                grid@.cells.len() == SIZE,
                grid@.walls == 0,
                forall|i: int| w * h <= i < SIZE ==> grid@.cells[i] == 0,
                forall|a: int, b: int|
                    in_grid(w, h, a, b) ==> #[trigger] at(grid@.cells, w, a, b) == if b < y && a == w - 1 {
                        wall_two()
                    } else if b < y && a == 0 {
                        wall_one()
                    } else if b == h - 1 {
                        wall_one()
                    } else if b == 0 {
                        wall_two()
                    } else {
                        0u16
                    },
        {
            proof {
                lemma_index_in_range(w, h, 0, y as int);
                lemma_index_in_range(w, h, w - 1, y as int);
            }
            let ghost c0 = grid@.cells;
            grid.set(0, y, TILE_MAX);
            let ghost c1 = grid@.cells;
            grid.set(WIDTH - 1, y, TILE_MAX - 1);
            proof {
                assert forall|a: int, b: int| in_grid(w, h, a, b) implies #[trigger] at(grid@.cells, w, a, b) == if b < y + 1 && a == w - 1 {
                    wall_two()
                } else if b < y + 1 && a == 0 {
                    wall_one()
                } else if b == h - 1 {
                    wall_one()
                } else if b == 0 {
                    wall_two()
                } else {
                    0u16
                } by {
                    lemma_at_update(c0, w, h, 0, y as int, wall_one(), a, b);
                    lemma_at_update(c1, w, h, w - 1, y as int, wall_two(), a, b);
                }
            }
        }
        proof {
            let f = fresh_grid(w, SIZE as int).cells;
            assert forall|a: int, b: int| in_grid(w, h, a, b) implies at(grid@.cells, w, a, b) == at(f, w, a, b) by {
                lemma_index_in_range(w, h, a, b);
                lemma_index_coords(w, h, a, b);
            }
            lemma_grid_ext(grid@.cells, f, w, h);
        }
        grid
    }
}

/// The text of one decimal digit.
fn digit_text(d: u16) -> (s: &'static str)
    requires
        d < 10,
    ensures
        s@ == seq![digit_char(d as int)],
{
    proof {
        reveal_strlit("0");
        reveal_strlit("1");
        reveal_strlit("2");
        reveal_strlit("3");
        reveal_strlit("4");
        reveal_strlit("5");
        reveal_strlit("6");
        reveal_strlit("7");
        reveal_strlit("8");
        reveal_strlit("9");
    }
    match d {
        0 => "0",
        1 => "1",
        2 => "2",
        3 => "3",
        4 => "4",
        5 => "5",
        6 => "6",
        7 => "7",
        8 => "8",
        _ => "9",
    }
}

/// The decimal digits of `n`.
pub fn decimal_text(n: u16) -> (s: String)
    ensures
        s@ == decimal(n as nat),
    decreases n,
{
    if n < 10 {
        String::from_str(digit_text(n))
    } else {
        let mut s = decimal_text(n / 10);
        s.append(digit_text(n % 10));
        s
    }
}

impl<const WIDTH: usize, const SIZE: usize> TileGrid<WIDTH, SIZE> {
    /// Reads a drawing: starts from a fresh grid and asks for a wall at every
    /// `#` inside the borders, row by row (rows are separated by line breaks).
    pub fn from(disp: String) -> (grid: Self)
        requires
            WIDTH >= 1,
            SIZE / WIDTH >= 2,
            WIDTH >= 2 || SIZE / WIDTH == 2 || !disp@.contains('\n'),
            text_requests(disp@, WIDTH as int, Self::height(), 0, 0) <= u16::MAX,
        ensures
            grid@ == read_text(fresh_grid(WIDTH as int, SIZE as int), disp@, WIDTH as int, Self::height(), 0, 0),
            grid.well_formed(),
    {
        let ghost w = WIDTH as int;
        let ghost h = Self::height();
        let mut slf = TileGrid::<WIDTH, SIZE>::default();
        proof {
            slf.lemma_shape();
            assert forall|a: int, b: int| in_grid(w, h, a, b) && !interior(w, h, a, b) implies at(slf@.cells, w, a, b) >= wall_two() by {
                lemma_index_in_range(w, h, a, b);
                lemma_index_coords(w, h, a, b);
            }
        }
        let height = SIZE / WIDTH;
        let mut col: usize = 0;
        let mut row: usize = 0;
        let ghost text = disp@;
        let ghost mut rest = disp@;
        for c in it: disp.chars()
            invariant
                w == WIDTH as int,
                h == height as int,
                h == Self::height(),
                0 < w,
                2 <= h,
                w * h <= SIZE,
                slf@.cells.len() == SIZE,
                border_walled(slf@.cells, w, h),
                col <= w,
                row <= h,
                it.seq() == text,
                rest == text.skip(it.index() as int),
                read_text(slf@, rest, w, h, col as int, row as int) == read_text(
                    fresh_grid(w, SIZE as int),
                    text,
                    w,
                    h,
                    0,
                    0,
                ),
                slf@.walls + text_requests(rest, w, h, col as int, row as int) <= u16::MAX,
        {
            proof {
                assert(rest.len() > 0);
                assert(rest[0] == c);
            }
            if c == '\n' {
                col = 0;
                if row < height {
                    row = row + 1;
                }
            } else {
                if c == '#' && 1 <= col && col < WIDTH - 1 && 1 <= row && row < height - 1 {
                    proof {
                        lemma_placed_border(slf@, w, h, col as int, row as int);
                    }
                    slf.set_wall(col, row);
                }
                if col < WIDTH {
                    col = col + 1;
                }
            }
            proof {
                rest = rest.drop_first();
                assert(rest == text.skip(it.index() + 1));
            }
        }
        slf
    }

    /// The borders hold walls joined to them.
    pub open spec fn well_formed(&self) -> bool {
        border_walled(self@.cells, WIDTH as int, Self::height())
    }

    /// Draws the grid: each row after a line break, a wall as `#` and anything
    /// else as a blank, then a line with the wall counter.
    pub fn to_string(&self) -> (s: String)
        requires
            WIDTH > 0,
        ensures
            s@ == grid_text(self@, WIDTH as int, Self::height()),
    {
        let ghost w = WIDTH as int;
        let ghost h = Self::height();
        proof {
            self.lemma_shape();
            reveal_strlit("\n");
            reveal_strlit("#");
            reveal_strlit(" ");
        }
        let mut s = String::new();
        let height = SIZE / WIDTH;
        for y in 0..height
            invariant
                w == WIDTH as int,
                h == height as int,
                0 < w,
                w * h <= SIZE,
                self@.cells.len() == SIZE,
                s@ == rows_text(self@.cells, w, y as nat),
        {
            proof {
                reveal_strlit("\n");
            }
            s.append("\n");
            let ghost before = s@;
            for x in 0..WIDTH
                invariant
                    w == WIDTH as int,
                    h == height as int,
                    0 < w,
                    w * h <= SIZE,
                    y < h,
                    self@.cells.len() == SIZE,
                    s@ == before + row_text(self@.cells, w, y as int, x as nat),
            {
                proof {
                    lemma_index_in_range(w, h, x as int, y as int);
                    reveal_strlit("#");
                    reveal_strlit(" ");
                }
                let v = self.get(x, y);
                if v > TILE_MAX - 3 {
                    s.append("#");
                } else {
                    s.append(" ");
                }
                assert(s@ =~= before + row_text(self@.cells, w, y as int, (x + 1) as nat));
            }
            assert(s@ =~= rows_text(self@.cells, w, (y + 1) as nat));
        }
        s.append("\n");
        let digits = decimal_text(self.walls);
        s.append(digits.as_str());
        s
    }
}


/// The four ways a bug can move: left lowers the column, up lowers the row.
#[derive(Clone, Copy, Debug)]
pub enum Direction {
    Left,
    Up,
    Down,
    Right,
}

impl Direction {
    /// The move stays within the range of `usize`.
    pub open spec fn can_move(self, coords: (usize, usize)) -> bool {
        match self {
            Direction::Left => coords.0 >= 1,
            Direction::Up => coords.1 >= 1,
            Direction::Down => coords.1 < usize::MAX,
            Direction::Right => coords.0 < usize::MAX,
        }
    }

    /// The coordinates one tile away in this direction.
    pub open spec fn moved(self, coords: (usize, usize)) -> (usize, usize) {
        match self {
            Direction::Left => ((coords.0 - 1) as usize, coords.1),
            Direction::Up => (coords.0, (coords.1 - 1) as usize),
            Direction::Down => (coords.0, (coords.1 + 1) as usize),
            Direction::Right => ((coords.0 + 1) as usize, coords.1),
        }
    }

    pub fn move_coordinates(&self, coords: (usize, usize)) -> (r: (usize, usize))
        requires
            self.can_move(coords),
        ensures
            r == self.moved(coords),
    {
        match self {
            Direction::Left => (coords.0 - 1, coords.1),
            Direction::Up => (coords.0, coords.1 - 1),
            Direction::Down => (coords.0, coords.1 + 1),
            Direction::Right => (coords.0 + 1, coords.1),
        }
    }
}

/// The abstract state of a bug: its grid, where it stands, where it last went
/// and how many steps it took.
pub struct BugModel {
    pub grid: GridModel,
    pub pos: (usize, usize),
    pub dir: Direction,
    pub steps: u64,
}

/// The value of the tile one move away in direction `d`.
pub open spec fn score(c: Seq<u16>, w: int, pos: (usize, usize), d: Direction) -> u16 {
    at(c, w, d.moved(pos).0 as int, d.moved(pos).1 as int)
}

/// The direction a bug takes: the one it last took, unless one of down,
/// right, up, left (looked at in that order) leads to a strictly lower tile
/// than the best found so far.
pub open spec fn chosen_dir(c: Seq<u16>, w: int, pos: (usize, usize), dir: Direction) -> Direction {
    let s0 = score(c, w, pos, dir);
    let m1 = if score(c, w, pos, Direction::Down) < s0 { Direction::Down } else { dir };
    let s1 = score(c, w, pos, m1);
    let m2 = if score(c, w, pos, Direction::Right) < s1 { Direction::Right } else { m1 };
    let s2 = score(c, w, pos, m2);
    let m3 = if score(c, w, pos, Direction::Up) < s2 { Direction::Up } else { m2 };
    let s3 = score(c, w, pos, m3);
    if score(c, w, pos, Direction::Left) < s3 { Direction::Left } else { m3 }
}

/// The direction a bug takes leads to a tile no higher than any of the four
/// around it.
pub proof fn lemma_chosen_lowest(c: Seq<u16>, w: int, pos: (usize, usize), dir: Direction, d: Direction)
    ensures
        score(c, w, pos, chosen_dir(c, w, pos, dir)) <= score(c, w, pos, d),
{
}

/// A bug whose last direction leads to a lowest tile keeps that direction.
pub proof fn lemma_keeps_direction(c: Seq<u16>, w: int, pos: (usize, usize), dir: Direction)
    requires
        forall|d: Direction| score(c, w, pos, dir) <= #[trigger] score(c, w, pos, d),
    ensures
        chosen_dir(c, w, pos, dir) == dir,
{
    assert(score(c, w, pos, dir) <= score(c, w, pos, Direction::Down));
    assert(score(c, w, pos, dir) <= score(c, w, pos, Direction::Right));
    assert(score(c, w, pos, dir) <= score(c, w, pos, Direction::Up));
    assert(score(c, w, pos, dir) <= score(c, w, pos, Direction::Left));
}

proof fn lemma_moved_in_grid(w: int, h: int, pos: (usize, usize), d: Direction)
    requires
        w <= usize::MAX,
        h <= usize::MAX,
        interior(w, h, pos.0 as int, pos.1 as int),
    ensures
        in_grid(w, h, d.moved(pos).0 as int, d.moved(pos).1 as int),
        (d.moved(pos).0 as int, d.moved(pos).1 as int) != (pos.0 as int, pos.1 as int),
{
    match d {
        Direction::Left => {},
        Direction::Up => {},
        Direction::Down => {},
        Direction::Right => {},
    }
}

/// A bug inside the borders of a walled grid, with an open tile among the four
/// around it, steps onto an open tile inside the borders: it never steps onto
/// a wall nor leaves the inside.
pub proof fn lemma_step_stays_open(m: BugModel, w: int, h: int, d: Direction)
    requires
        w <= usize::MAX,
        h <= usize::MAX,
        interior(w, h, m.pos.0 as int, m.pos.1 as int),
        m.grid.cells.len() >= w * h,
        border_walled(m.grid.cells, w, h),
        at(m.grid.cells, w, m.pos.0 as int, m.pos.1 as int) < TILE_MAX,
        score(m.grid.cells, w, m.pos, d) < wall_three(),
    ensures
        interior(w, h, stepped(m, w).pos.0 as int, stepped(m, w).pos.1 as int),
        at(stepped(m, w).grid.cells, w, stepped(m, w).pos.0 as int, stepped(m, w).pos.1 as int) < wall_three(),
{
    let c = m.grid.cells;
    let x = m.pos.0 as int;
    let y = m.pos.1 as int;
    let i = x + y * w;
    lemma_index_in_range(w, h, x, y);
    let v = (c[i] + 1) as u16;
    let c1 = c.update(i, v);
    let e = chosen_dir(c1, w, m.pos, m.dir);
    lemma_chosen_lowest(c1, w, m.pos, m.dir, d);
    let p = e.moved(m.pos);
    let q = d.moved(m.pos);
    lemma_moved_in_grid(w, h, m.pos, e);
    lemma_moved_in_grid(w, h, m.pos, d);
    lemma_at_update(c, w, h, x, y, v, p.0 as int, p.1 as int);
    lemma_at_update(c, w, h, x, y, v, q.0 as int, q.1 as int);
    assert(stepped(m, w).grid.cells == c1);
    assert(stepped(m, w).pos == p);
}

/// A bug can take a step: its tile can be counted once more, and the four
/// tiles around it are in the grid.
pub open spec fn can_step(m: BugModel, w: int, size: int) -> bool {
    &&& m.steps < u64::MAX
    &&& m.pos.0 >= 1
    &&& m.pos.1 >= 1
    &&& m.pos.1 < usize::MAX
    &&& m.pos.0 + 1 + m.pos.1 * w < size
    &&& m.pos.0 + (m.pos.1 + 1) * w < size
    &&& at(m.grid.cells, w, m.pos.0 as int, m.pos.1 as int) < TILE_MAX
}

/// The bug after one step: its tile counts one more visit, and it moves in the
/// chosen direction.
pub open spec fn stepped(m: BugModel, w: int) -> BugModel {
    let i = m.pos.0 + m.pos.1 * w;
    let c = m.grid.cells.update(i, (m.grid.cells[i] + 1) as u16);
    let d = chosen_dir(c, w, m.pos, m.dir);
    BugModel {
        grid: GridModel { cells: c, walls: m.grid.walls },
        pos: d.moved(m.pos),
        dir: d,
        steps: (m.steps + 1) as u64,
    }
}

/// The bug after `k` steps.
pub open spec fn after(m: BugModel, w: int, k: nat) -> BugModel
    decreases k,
{
    if k == 0 {
        m
    } else {
        stepped(after(m, w, (k - 1) as nat), w)
    }
}

/// The cell of the grid's storage the bug stands on.
pub open spec fn cell_of(m: BugModel, w: int) -> int {
    m.pos.0 + m.pos.1 * w
}

/// How many of the bug's first `k` steps left cell `j`.
pub open spec fn visits(m: BugModel, w: int, k: nat, j: int) -> nat
    decreases k,
{
    if k == 0 {
        0
    } else {
        visits(m, w, (k - 1) as nat, j) + if cell_of(after(m, w, (k - 1) as nat), w) == j {
            1nat
        } else {
            0nat
        }
    }
}

/// Each of the bug's first `k` steps can be taken.
pub open spec fn steps_ok(m: BugModel, w: int, size: int, k: nat) -> bool {
    forall|i: nat| i < k ==> #[trigger] can_step(after(m, w, i), w, size)
}

/// Over `k` steps, every cell gains one for each step that left it.
pub proof fn lemma_visits(m: BugModel, w: int, size: int, k: nat, j: int)
    requires
        w >= 0,
        m.grid.cells.len() == size,
        steps_ok(m, w, size, k),
        0 <= j < size,
    ensures
        after(m, w, k).grid.cells.len() == size,
        after(m, w, k).grid.cells[j] == m.grid.cells[j] + visits(m, w, k, j),
    decreases k,
{
    if k > 0 {
        let k1 = (k - 1) as nat;
        assert forall|i: nat| i < k1 implies #[trigger] can_step(after(m, w, i), w, size) by {
            assert(can_step(after(m, w, i), w, size));
        }
        lemma_visits(m, w, size, k1, j);
        let b = after(m, w, k1);
        assert(can_step(b, w, size));
        assert(0 <= cell_of(b, w)) by (nonlinear_arith)
            requires
                w >= 0,
                b.pos.0 >= 0,
                b.pos.1 >= 0,
                cell_of(b, w) == b.pos.0 + b.pos.1 * w,
        ;
    }
}

/// A tile is unseen exactly when it was never visited before the bug's first
/// step and none of the bug's first `k` steps left it: on a grid whose open
/// tiles start at zero, the bug's tile is unseen exactly when the bug never
/// stood there before.
pub proof fn lemma_unseen_means_new(m: BugModel, w: int, size: int, k: nat)
    requires
        w >= 0,
        m.grid.cells.len() == size,
        steps_ok(m, w, size, k),
        0 <= cell_of(after(m, w, k), w) < size,
    ensures
        (at(after(m, w, k).grid.cells, w, after(m, w, k).pos.0 as int, after(m, w, k).pos.1 as int) == 0) <==> (
        m.grid.cells[cell_of(after(m, w, k), w)] == 0 && visits(m, w, k, cell_of(after(m, w, k), w)) == 0),
{
    lemma_visits(m, w, size, k, cell_of(after(m, w, k), w));
}

proof fn lemma_visits_zero(m: BugModel, w: int, k: nat, j: int)
    ensures
        visits(m, w, k, j) == 0 <==> forall|i: nat| i < k ==> cell_of(#[trigger] after(m, w, i), w) != j,
    decreases k,
{
    if k > 0 {
        lemma_visits_zero(m, w, (k - 1) as nat, j);
        if visits(m, w, k, j) == 0 {
            assert forall|i: nat| i < k implies cell_of(#[trigger] after(m, w, i), w) != j by {
                if i < k - 1 {
                } else {
                    assert(i == k - 1);
                }
            }
        } else {
            if cell_of(after(m, w, (k - 1) as nat), w) != j {
                let i = choose|i: nat| i < k - 1 && cell_of(#[trigger] after(m, w, i), w) == j;
                assert(cell_of(after(m, w, i), w) == j);
            }
        }
    }
}

/// On a grid where the bug's current tile started unvisited, and the bug
/// stayed on the grid, its tile is unseen after `k` steps exactly when it
/// stood there at none of the `k` positions it left.
pub proof fn lemma_unseen_positions(m: BugModel, w: int, h: int, size: int, k: nat)
    requires
        w > 0,
        w * h <= size,
        m.grid.cells.len() == size,
        steps_ok(m, w, size, k),
        forall|i: nat| i <= k ==> in_grid(w, h, (#[trigger] after(m, w, i)).pos.0 as int, after(m, w, i).pos.1 as int),
        m.grid.cells[cell_of(after(m, w, k), w)] == 0,
    ensures
        (at(after(m, w, k).grid.cells, w, after(m, w, k).pos.0 as int, after(m, w, k).pos.1 as int) == 0) <==> !(
        exists|i: nat| i < k && (#[trigger] after(m, w, i)).pos == after(m, w, k).pos),
{
    let pk = after(m, w, k).pos;
    let j = cell_of(after(m, w, k), w);
    assert(in_grid(w, h, pk.0 as int, pk.1 as int));
    lemma_index_in_range(w, h, pk.0 as int, pk.1 as int);
    lemma_unseen_means_new(m, w, size, k);
    lemma_visits_zero(m, w, k, j);
    assert forall|i: nat| i < k implies (cell_of(#[trigger] after(m, w, i), w) == j <==> after(m, w, i).pos == pk) by {
        let pi = after(m, w, i).pos;
        assert(in_grid(w, h, pi.0 as int, pi.1 as int));
        if cell_of(after(m, w, i), w) == j {
            lemma_index_unique(w, h, pi.0 as int, pi.1 as int, pk.0 as int, pk.1 as int);
        }
    }
}

#[derive(Clone, Copy)]
pub struct BitBug<const WIDTH: usize, const SIZE: usize> {
    pub tiles: TileGrid<WIDTH, SIZE>,
    pub(crate) pos: (usize, usize),
    pub(crate) dir: Direction,
    pub steps: u64,
}

impl<const WIDTH: usize, const SIZE: usize> View for BitBug<WIDTH, SIZE> {
    type V = BugModel;

    closed spec fn view(&self) -> BugModel {
        BugModel { grid: self.tiles@, pos: self.pos, dir: self.dir, steps: self.steps }
    }
}

impl<const WIDTH: usize, const SIZE: usize> Default for BitBug<WIDTH, SIZE> {
    /// A bug on a fresh grid, at column 1 of row 1, facing up, before its first step.
    fn default() -> (bug: Self)
        ensures
            bug@ == (BugModel {
                grid: fresh_grid(WIDTH as int, SIZE as int),
                pos: (1, 1),
                dir: Direction::Up,
                steps: 0,
            }),
    {
        BitBug { tiles: TileGrid::<WIDTH, SIZE>::default(), pos: (1, 1), dir: Direction::Up, steps: 0 }
    }
}

impl<const WIDTH: usize, const SIZE: usize> BitBug<WIDTH, SIZE> {
    pub proof fn lemma_shape(&self)
        ensures
            self@.grid.cells.len() == SIZE,
            WIDTH > 0 ==> WIDTH * TileGrid::<WIDTH, SIZE>::height() <= SIZE,
            WIDTH > 0 ==> TileGrid::<WIDTH, SIZE>::height() <= SIZE,
    {
        self.tiles.lemma_shape();
    }

    pub(crate) proof fn lemma_steps(&self)
        ensures
            self@.steps == self.steps,
    {
    }

    pub(crate) proof fn lemma_view(&self)
        ensures
            self@.grid == self.tiles@,
            self@.steps == self.steps,
            self@.grid.cells.len() == SIZE,
    {
        self.tiles.lemma_shape();
    }

    /// Counts one more visit to the bug's tile, then moves the bug to the
    /// lowest of the four tiles around it, keeping its direction on ties.
    pub fn take_step(&mut self)
        requires
            can_step(old(self)@, WIDTH as int, SIZE as int),
        ensures
            final(self)@ == stepped(old(self)@, WIDTH as int),
    {
        proof {
            self.lemma_view();
            let x = self.pos.0 as int;
            let y = self.pos.1 as int;
            let w = WIDTH as int;
            assert((y - 1) * w <= y * w && y * w <= (y + 1) * w) by (nonlinear_arith)
                requires
                    y >= 1,
                    w >= 0,
            ;
        }
        self.steps += 1;
        let v = self.tiles.get(self.pos.0, self.pos.1);
        self.tiles.set(self.pos.0, self.pos.1, v + 1);
        let mut mv = self.dir;
        let mut score = self.tile_at_dir(&self.dir);
        let d = Direction::Down;
        if self.tile_at_dir(&d) < score {
            score = self.tile_at_dir(&d);
            mv = d;
        }
        let d = Direction::Right;
        if self.tile_at_dir(&d) < score {
            score = self.tile_at_dir(&d);
            mv = d;
        }
        let d = Direction::Up;
        if self.tile_at_dir(&d) < score {
            score = self.tile_at_dir(&d);
            mv = d;
        }
        let d = Direction::Left;
        if self.tile_at_dir(&d) < score {
            score = self.tile_at_dir(&d);
            mv = d;
        }
        self.pos = mv.move_coordinates(self.pos);
        self.dir = mv;
    }

    /// The bug can take a step without a counter overflowing or a tile around
    /// it falling outside the grid.
    pub fn can_take_step(&self) -> (r: bool)
        ensures
            r == can_step(self@, WIDTH as int, SIZE as int),
    {
        proof {
            self.lemma_view();
        }
        if self.steps == u64::MAX || self.pos.0 == 0 || self.pos.1 == 0 || self.pos.1 == usize::MAX {
            return false;
        }
        let row = match self.pos.1.checked_mul(WIDTH) {
            Some(v) => v,
            None => return false,
        };
        let right = match self.pos.0.checked_add(row) {
            Some(v) => v,
            None => return false,
        };
        if SIZE == 0 || right >= SIZE - 1 {
            return false;
        }
        let next_row = match (self.pos.1 + 1).checked_mul(WIDTH) {
            Some(v) => v,
            None => return false,
        };
        let below = match self.pos.0.checked_add(next_row) {
            Some(v) => v,
            None => return false,
        };
        if below >= SIZE {
            return false;
        }
        self.tiles.get(self.pos.0, self.pos.1) < TILE_MAX
    }

    /// The tile one move away in direction `dir`.
    pub fn tile_at_dir(&self, dir: &Direction) -> (t: Tile)
        requires
            dir.can_move(self@.pos),
            dir.moved(self@.pos).0 + dir.moved(self@.pos).1 * WIDTH < SIZE,
        ensures
            t == score(self@.grid.cells, WIDTH as int, self@.pos, *dir),
    {
        let oset = dir.move_coordinates(self.pos);
        self.tiles.get(oset.0, oset.1)
    }

    /// The bug stands on the goal: the last tile inside the borders.
    pub fn is_done(&self) -> (r: bool)
        requires
            WIDTH >= 2,
            SIZE / WIDTH >= 2,
        ensures
            r == (self@.pos.0 == WIDTH - 2 && self@.pos.1 == SIZE / WIDTH - 2),
    {
        self.pos.0 == WIDTH - 2 && self.pos.1 == SIZE / WIDTH - 2
    }

    /// The bug's tile has never been visited.
    pub fn unseen(&self) -> (r: bool)
        requires
            self@.pos.0 + self@.pos.1 * WIDTH < SIZE,
        ensures
            r == (at(self@.grid.cells, WIDTH as int, self@.pos.0 as int, self@.pos.1 as int) == 0),
    {
        self.tiles.get(self.pos.0, self.pos.1) == 0
    }

    pub fn pos(&self) -> (r: (usize, usize))
        ensures
            r == self@.pos,
    {
        self.pos
    }

    /// Asks for a wall at `(x, y)` on the bug's grid; see `TileGrid::set_wall`.
    pub fn set_wall(&mut self, x: usize, y: usize) -> (ok: bool)
        requires
            interior(WIDTH as int, TileGrid::<WIDTH, SIZE>::height(), x as int, y as int),
            no_loose_border(old(self)@.grid.cells, WIDTH as int, TileGrid::<WIDTH, SIZE>::height()),
            at(old(self)@.grid.cells, WIDTH as int, x as int, y as int) < wall_three() ==> old(self)@.grid.walls < TILE_MAX,
        ensures
            final(self)@ == (BugModel {
                grid: placed(old(self)@.grid, WIDTH as int, TileGrid::<WIDTH, SIZE>::height(), x as int, y as int),
                ..old(self)@
            }),
            ok == wall_allowed(old(self)@.grid.cells, WIDTH as int, x as int, y as int),
            no_loose_border(final(self)@.grid.cells, WIDTH as int, TileGrid::<WIDTH, SIZE>::height()),
            border_walled(old(self)@.grid.cells, WIDTH as int, TileGrid::<WIDTH, SIZE>::height()) ==> border_walled(
                final(self)@.grid.cells,
                WIDTH as int,
                TileGrid::<WIDTH, SIZE>::height(),
            ),
    {
        self.tiles.set_wall(x, y)
    }

    /// A bug at column 1 of row 1, facing up, on the grid read from a drawing;
    /// see `TileGrid::from`.
    pub fn from(value: String) -> (bug: Self)
        requires
            WIDTH >= 1,
            SIZE / WIDTH >= 2,
            WIDTH >= 2 || SIZE / WIDTH == 2 || !value@.contains('\n'),
            text_requests(value@, WIDTH as int, TileGrid::<WIDTH, SIZE>::height(), 0, 0) <= u16::MAX,
        ensures
            bug@ == (BugModel {
                grid: read_text(
                    fresh_grid(WIDTH as int, SIZE as int),
                    value@,
                    WIDTH as int,
                    TileGrid::<WIDTH, SIZE>::height(),
                    0,
                    0,
                ),
                pos: (1, 1),
                dir: Direction::Up,
                steps: 0,
            }),
            border_walled(bug@.grid.cells, WIDTH as int, TileGrid::<WIDTH, SIZE>::height()),
    {
        BitBug { tiles: TileGrid::<WIDTH, SIZE>::from(value), pos: (1, 1), dir: Direction::Up, steps: 0 }
    }

    /// Draws the bug's grid; see `TileGrid::to_string`.
    pub fn to_string(&self) -> (s: String)
        requires
            WIDTH > 0,
        ensures
            s@ == grid_text(self@.grid, WIDTH as int, TileGrid::<WIDTH, SIZE>::height()),
    {
        self.tiles.to_string()
    }
}

} // verus!
