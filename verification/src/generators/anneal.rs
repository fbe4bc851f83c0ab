use vstd::prelude::*;
use crate::bug::bitbug::{BitBug, BugModel, Direction, TileGrid};
use crate::search::search::run_out;
use crate::bug::separation::{
    separated, kind_kept, border_fresh, anchored, anchored_at, lemma_fresh_separated, lemma_placed_separated, lemma_placed_stable,
    lemma_granted_is_wall,
};
use crate::bug::flood_lemmas::{lemma_placed_frame, lemma_placed_keeps_open};
use crate::bug::grid_spec::{
    GridModel, TILE_MAX, at, border_walled, fresh_grid, in_grid, interior, placed, wall_allowed,
    wall_three, lemma_index_in_range, lemma_index_coords, nbr_x, nbr_y, wall_one, wall_two,
    lemma_nbr_of_interior, has_nbr, flood, reach, level, clean, lemma_at_update,
};
use crate::bug::flood_lemmas::{lemma_flood_at, lemma_reach_start};

verus! {

/// A wall at `(x, y)` if it is allowed; else the grid unchanged.
pub open spec fn try_wall(g: GridModel, w: int, h: int, x: int, y: int) -> GridModel {
    if wall_allowed(g.cells, w, x, y) {
        placed(g, w, h, x, y)
    } else {
        g
    }
}

/// Rows `1..=n` of column `x`: each row whose pick is set gets a wall if it is allowed.
pub open spec fn random_column(g: GridModel, picks: Seq<bool>, w: int, h: int, x: int, n: nat) -> GridModel
    decreases n,
{
    if n == 0 {
        g
    } else {
        let g1 = random_column(g, picks, w, h, x, (n - 1) as nat);
        if picks[n - 1] {
            try_wall(g1, w, h, x, n as int)
        } else {
            g1
        }
    }
}

/// The number of rows (or columns) inside the borders of a grid with `n` rows
/// (or columns).
pub open spec fn inner_span(n: int) -> nat {
    if n >= 2 {
        (n - 2) as nat
    } else {
        0
    }
}

/// Columns `1..=n`, each with its own picks, one per row inside the borders.
pub open spec fn random_walls(g: GridModel, picks: Seq<Seq<bool>>, w: int, h: int, n: nat) -> GridModel
    decreases n,
{
    if n == 0 {
        g
    } else {
        random_column(random_walls(g, picks, w, h, (n - 1) as nat), picks[n - 1], w, h, n as int, inner_span(h))
    }
}

/// A bug at column 1 of row 1, facing up, before its first step, on grid `g`.
pub open spec fn start_bug(g: GridModel) -> BugModel {
    BugModel { grid: g, pos: (1, 1), dir: Direction::Up, steps: 0 }
}

/// The grid has `w` columns and `h` rows, and fewer tiles inside its borders
/// than the wall counter can count.
pub open spec fn countable_grid(w: int, h: int) -> bool {
    &&& w >= 1
    &&& h >= 1
    &&& inner_span(w) * inner_span(h) <= u16::MAX
}

/// A fair coin from the thread-local generator of `rand` (`rand::random::<bool>`);
/// nothing is promised of its outcome.
#[verifier::external_body]
fn random_bool() -> bool {
    rand::random::<bool>()
}

pub proof fn lemma_fresh_border(w: int, size: int)
    requires
        0 < w,
        0 < size / w,
        w * (size / w) <= size,
    ensures
        border_walled(fresh_grid(w, size).cells, w, size / w),
        fresh_grid(w, size).cells.len() == size,
{
    let h = size / w;
    assert forall|a: int, b: int| in_grid(w, h, a, b) && !interior(w, h, a, b) implies at(fresh_grid(w, size).cells, w, a, b) >= (TILE_MAX - 1) by {
        lemma_index_in_range(w, h, a, b);
        lemma_index_coords(w, h, a, b);
    }
}

/// How many of the first `n` picks of a column are set.
pub open spec fn set_count(col: Seq<bool>, n: nat) -> nat
    decreases n,
{
    if n == 0 {
        0
    } else {
        set_count(col, (n - 1) as nat) + if col[n - 1] {
            1nat
        } else {
            0nat
        }
    }
}

/// How many picks are set in the first `n` columns, `rows` picks each: the
/// most wall requests that placing them can make.
pub open spec fn picks_set(p: Seq<Seq<bool>>, n: nat, rows: nat) -> nat
    decreases n,
{
    if n == 0 {
        0
    } else {
        picks_set(p, (n - 1) as nat, rows) + set_count(p[n - 1], rows)
    }
}

proof fn lemma_set_count_mono(col: Seq<bool>, a: nat, b: nat)
    requires
        a <= b,
    ensures
        set_count(col, a) <= set_count(col, b),
        set_count(col, b) <= set_count(col, a) + (b - a),
    decreases b,
{
    if a < b {
        lemma_set_count_mono(col, a, (b - 1) as nat);
    }
}

proof fn lemma_picks_set_mono(p: Seq<Seq<bool>>, rows: nat, a: nat, b: nat)
    requires
        a <= b,
    ensures
        picks_set(p, a, rows) <= picks_set(p, b, rows),
    decreases b,
{
    if a < b {
        lemma_picks_set_mono(p, rows, a, (b - 1) as nat);
    }
}

/// Whether an annealing pass over `src` asks for a wall at `(x, y)`: a flipped
/// open tile, or a wall that is not flipped.
pub open spec fn anneal_asks(src: Seq<u16>, flip: bool, w: int, x: int, y: int) -> bool {
    if flip {
        at(src, w, x, y) < wall_three()
    } else {
        at(src, w, x, y) > TILE_MAX - 3
    }
}

/// How many of rows `1..=n` of column `x` an annealing pass asks a wall for.
pub open spec fn asks_in_column(src: Seq<u16>, col: Seq<bool>, w: int, x: int, n: nat) -> nat
    decreases n,
{
    if n == 0 {
        0
    } else {
        asks_in_column(src, col, w, x, (n - 1) as nat) + if anneal_asks(src, col[n - 1], w, x, n as int) {
            1nat
        } else {
            0nat
        }
    }
}

/// How many wall requests an annealing pass makes in columns `1..=n`, `rows`
/// rows each.
pub open spec fn anneal_asks_count(src: Seq<u16>, flips: Seq<Seq<bool>>, w: int, rows: nat, n: nat) -> nat
    decreases n,
{
    if n == 0 {
        0
    } else {
        anneal_asks_count(src, flips, w, rows, (n - 1) as nat) + asks_in_column(src, flips[n - 1], w, n as int, rows)
    }
}

proof fn lemma_asks_in_column_mono(src: Seq<u16>, col: Seq<bool>, w: int, x: int, a: nat, b: nat)
    requires
        a <= b,
    ensures
        asks_in_column(src, col, w, x, a) <= asks_in_column(src, col, w, x, b),
    decreases b,
{
    if a < b {
        lemma_asks_in_column_mono(src, col, w, x, a, (b - 1) as nat);
    }
}

proof fn lemma_anneal_asks_count_mono(src: Seq<u16>, flips: Seq<Seq<bool>>, w: int, rows: nat, a: nat, b: nat)
    requires
        a <= b,
    ensures
        anneal_asks_count(src, flips, w, rows, a) <= anneal_asks_count(src, flips, w, rows, b),
    decreases b,
{
    if a < b {
        lemma_anneal_asks_count_mono(src, flips, w, rows, a, (b - 1) as nat);
    }
}

proof fn lemma_picks_set_bound(p: Seq<Seq<bool>>, rows: nat, n: nat)
    ensures
        picks_set(p, n, rows) <= n * rows,
    decreases n,
{
    if n > 0 {
        lemma_picks_set_bound(p, rows, (n - 1) as nat);
        lemma_set_count_mono(p[n - 1], 0, rows);
        assert((n - 1) * rows + rows == n * rows) by (nonlinear_arith);
    }
}

/// Builds a bug on a fresh grid, walking the tiles inside the borders column
/// by column, and putting a wall on each tile whose pick is set, where the
/// wall is allowed.
pub fn gen_with<const WIDTH: usize, const SIZE: usize>(picks: &Vec<Vec<bool>>) -> (bug: BitBug<WIDTH, SIZE>)
    requires
        WIDTH >= 1,
        SIZE / WIDTH >= 1,
        picks_set(picks.deep_view(), inner_span(WIDTH as int), inner_span(SIZE as int / WIDTH as int)) <= u16::MAX,
        picks@.len() == inner_span(WIDTH as int),
        forall|i: int| 0 <= i < picks@.len() ==> #[trigger] picks@[i]@.len() == inner_span(SIZE as int / WIDTH as int),
    ensures
        bug@ == start_bug(
            random_walls(
                fresh_grid(WIDTH as int, SIZE as int),
                picks.deep_view(),
                WIDTH as int,
                SIZE as int / WIDTH as int,
                inner_span(WIDTH as int),
            ),
        ),
{
    let ghost w = WIDTH as int;
    let ghost h = SIZE as int / WIDTH as int;
    let ghost p = picks.deep_view();
    let mut bug = BitBug::<WIDTH, SIZE>::default();
    proof {
        bug.lemma_shape();
        lemma_fresh_border(w, SIZE as int);
        assert(p.len() == picks@.len());
    }
    let ghost g0 = bug@.grid;
    let x_end = WIDTH - 1;
    let mut x: usize = 1;
    while x < x_end
        invariant
            w == WIDTH as int,
            h == SIZE as int / WIDTH as int,
            h == TileGrid::<WIDTH, SIZE>::height(),
            x_end == w - 1,
            1 <= x,
            x <= x_end || x == 1,
            w >= 1,
            h >= 1,
            picks_set(p, inner_span(w), inner_span(h)) <= u16::MAX,
            w * h <= SIZE,
            p == picks.deep_view(),
            p.len() == inner_span(w),
            forall|i: int| 0 <= i < p.len() ==> #[trigger] p[i].len() == inner_span(h),
            g0 == fresh_grid(w, SIZE as int),
            bug@ == start_bug(random_walls(g0, p, w, h, (x - 1) as nat)),
            bug@.grid.cells.len() == SIZE,
            border_walled(bug@.grid.cells, w, h),
            bug@.grid.walls <= picks_set(p, (x - 1) as nat, inner_span(h)),
        decreases x_end - x,
    {
        let ghost gx = bug@.grid;
        let y_end = SIZE / WIDTH - 1;
        let mut y: usize = 1;
        while y < y_end
            invariant
                w == WIDTH as int,
                h == SIZE as int / WIDTH as int,
                h == TileGrid::<WIDTH, SIZE>::height(),
                y_end == h - 1,
                1 <= y,
                y <= y_end || y == 1,
                w >= 1,
                h >= 1,
                picks_set(p, inner_span(w), inner_span(h)) <= u16::MAX,
                w * h <= SIZE,
                1 <= x <= w - 2,
                p == picks.deep_view(),
                p.len() == inner_span(w),
                forall|i: int| 0 <= i < p.len() ==> #[trigger] p[i].len() == inner_span(h),
                gx == random_walls(g0, p, w, h, (x - 1) as nat),
                bug@ == start_bug(random_column(gx, p[x - 1], w, h, x as int, (y - 1) as nat)),
                bug@.grid.cells.len() == SIZE,
                border_walled(bug@.grid.cells, w, h),
                bug@.grid.walls <= picks_set(p, (x - 1) as nat, inner_span(h)) + set_count(p[x - 1], (y - 1) as nat),
            decreases y_end - y,
        {
            proof {
                assert(picks@[x - 1]@ == p[x - 1]);
                lemma_set_count_mono(p[x - 1], y as nat, inner_span(h));
                lemma_picks_set_mono(p, inner_span(h), x as nat, inner_span(w));
            }
            if picks[x - 1][y - 1] {
                let mut b2 = bug.clone();
                if b2.set_wall(x, y) {
                    bug.set_wall(x, y);
                }
            }
            proof {
                bug.lemma_shape();
            }
            y += 1;
        }
        proof {
            assert(y - 1 == inner_span(h));
        }
        x += 1;
    }
    bug
}

/// Builds a bug on a fresh grid with walls put at random: each tile inside the
/// borders, column by column, gets a wall with even odds, where the wall is
/// allowed.  Every picked tile left open could not take a wall.
pub fn gen_random<const WIDTH: usize, const SIZE: usize>() -> (bug: BitBug<WIDTH, SIZE>)
    requires
        countable_grid(WIDTH as int, SIZE as int / WIDTH as int),
    ensures
        exists|picks: Seq<Seq<bool>>|
            {
                &&& picks.len() == inner_span(WIDTH as int)
                &&& (forall|i: int| 0 <= i < picks.len() ==> #[trigger] picks[i].len() == inner_span(SIZE as int / WIDTH as int))
                &&& bug@ == start_bug(
                    random_walls(
                        fresh_grid(WIDTH as int, SIZE as int),
                        picks,
                        WIDTH as int,
                        SIZE as int / WIDTH as int,
                        inner_span(WIDTH as int),
                    ),
                )
                &&& forall|a: int, b: int|
                    1 <= a <= inner_span(WIDTH as int) && 1 <= b <= inner_span(SIZE as int / WIDTH as int)
                        && picks[a - 1][b - 1] && at(bug@.grid.cells, WIDTH as int, a, b) < wall_three() ==> !#[trigger] wall_allowed(
                        bug@.grid.cells,
                        WIDTH as int,
                        a,
                        b,
                    )
            },
{
    let mut picks: Vec<Vec<bool>> = Vec::new();
    let x_end = WIDTH - 1;
    let mut x: usize = 1;
    while x < x_end
        invariant
            x_end == WIDTH - 1,
            1 <= x,
            x <= x_end || x == 1,
            picks@.len() == x - 1,
            WIDTH >= 1,
            SIZE as int / WIDTH as int >= 1,
            forall|i: int| 0 <= i < picks@.len() ==> #[trigger] picks@[i]@.len() == inner_span(SIZE as int / WIDTH as int),
        decreases x_end - x,
    {
        let mut column: Vec<bool> = Vec::new();
        let y_end = SIZE / WIDTH - 1;
        let mut y: usize = 1;
        while y < y_end
            invariant
                y_end == SIZE as int / WIDTH as int - 1,
                1 <= y,
                y <= y_end || y == 1,
                column@.len() == y - 1,
            decreases y_end - y,
        {
            column.push(random_bool());
            y += 1;
        }
        assert(column@.len() == inner_span(SIZE as int / WIDTH as int));
        picks.push(column);
        x += 1;
    }
    assert(picks@.len() == inner_span(WIDTH as int));
    proof {
        lemma_picks_set_bound(
            picks.deep_view(),
            inner_span(SIZE as int / WIDTH as int),
            inner_span(WIDTH as int),
        );
    }
    let bug = gen_with::<WIDTH, SIZE>(&picks);
    proof {
        let p = picks.deep_view();
        assert(forall|i: int| 0 <= i < p.len() ==> #[trigger] p[i].len() == inner_span(SIZE as int / WIDTH as int)) by {
            assert forall|i: int| 0 <= i < p.len() implies #[trigger] p[i].len() == inner_span(SIZE as int / WIDTH as int) by {
                assert(p[i] == picks@[i]@);
            }
        }
        assert(p.len() == inner_span(WIDTH as int));
        assert forall|a: int, b: int|
            1 <= a <= inner_span(WIDTH as int) && 1 <= b <= inner_span(SIZE as int / WIDTH as int) && p[a - 1][b - 1]
                && at(bug@.grid.cells, WIDTH as int, a, b) < wall_three() implies !#[trigger] wall_allowed(
            bug@.grid.cells,
            WIDTH as int,
            a,
            b,
        ) by {
            lemma_generated_maximal(p, WIDTH as int, SIZE as int, a, b);
        }
        assert({
            &&& p.len() == inner_span(WIDTH as int)
            &&& (forall|i: int| 0 <= i < p.len() ==> #[trigger] p[i].len() == inner_span(SIZE as int / WIDTH as int))
            &&& bug@ == start_bug(
                random_walls(
                    fresh_grid(WIDTH as int, SIZE as int),
                    p,
                    WIDTH as int,
                    SIZE as int / WIDTH as int,
                    inner_span(WIDTH as int),
                ),
            )
            &&& forall|a: int, b: int|
                1 <= a <= inner_span(WIDTH as int) && 1 <= b <= inner_span(SIZE as int / WIDTH as int) && p[a - 1][b - 1]
                    && at(bug@.grid.cells, WIDTH as int, a, b) < wall_three() ==> !#[trigger] wall_allowed(
                    bug@.grid.cells,
                    WIDTH as int,
                    a,
                    b,
                )
        });
    }
    bug
}


/// One tile of an annealing pass over the walls of `src`.  A flipped tile that
/// is open in `src` asks for a wall, and the pass fails if the wall is not
/// allowed; a flipped wall is dropped.  A tile that is not flipped keeps its
/// wall, where the wall is still allowed.
pub open spec fn anneal_cell(src: Seq<u16>, g: GridModel, flip: bool, w: int, h: int, x: int, y: int) -> Option<GridModel> {
    let v = at(src, w, x, y);
    if flip {
        if v < wall_three() {
            if wall_allowed(g.cells, w, x, y) {
                Some(placed(g, w, h, x, y))
            } else {
                None
            }
        } else {
            Some(g)
        }
    } else if v > TILE_MAX - 3 {
        Some(try_wall(g, w, h, x, y))
    } else {
        Some(g)
    }
}

/// Rows `1..=n` of column `x` of an annealing pass.
pub open spec fn anneal_column(
    src: Seq<u16>,
    og: Option<GridModel>,
    flips: Seq<bool>,
    w: int,
    h: int,
    x: int,
    n: nat,
) -> Option<GridModel>
    decreases n,
{
    if n == 0 {
        og
    } else {
        match anneal_column(src, og, flips, w, h, x, (n - 1) as nat) {
            Some(g) => anneal_cell(src, g, flips[n - 1], w, h, x, n as int),
            None => None,
        }
    }
}

/// Columns `1..=n` of an annealing pass.
pub open spec fn anneal_walls(
    src: Seq<u16>,
    og: Option<GridModel>,
    flips: Seq<Seq<bool>>,
    w: int,
    h: int,
    n: nat,
) -> Option<GridModel>
    decreases n,
{
    if n == 0 {
        og
    } else {
        anneal_column(src, anneal_walls(src, og, flips, w, h, (n - 1) as nat), flips[n - 1], w, h, n as int, inner_span(h))
    }
}

proof fn lemma_anneal_column_fails(src: Seq<u16>, og: Option<GridModel>, flips: Seq<bool>, w: int, h: int, x: int, n: nat, m: nat)
    requires
        n <= m,
        anneal_column(src, og, flips, w, h, x, n) is None,
    ensures
        anneal_column(src, og, flips, w, h, x, m) is None,
    decreases m - n,
{
    if n < m {
        lemma_anneal_column_fails(src, og, flips, w, h, x, n, (m - 1) as nat);
    }
}

proof fn lemma_anneal_column_none(src: Seq<u16>, flips: Seq<bool>, w: int, h: int, x: int, n: nat)
    ensures
        anneal_column(src, None, flips, w, h, x, n) is None,
    decreases n,
{
    if n > 0 {
        lemma_anneal_column_none(src, flips, w, h, x, (n - 1) as nat);
    }
}

proof fn lemma_anneal_walls_fails(src: Seq<u16>, og: Option<GridModel>, flips: Seq<Seq<bool>>, w: int, h: int, n: nat, m: nat)
    requires
        n <= m,
        anneal_walls(src, og, flips, w, h, n) is None,
    ensures
        anneal_walls(src, og, flips, w, h, m) is None,
    decreases m - n,
{
    if n < m {
        lemma_anneal_walls_fails(src, og, flips, w, h, n, (m - 1) as nat);
        lemma_anneal_column_none(src, flips[m - 1], w, h, m as int, inner_span(h));
    }
}

/// An annealing pass: builds a bug on a fresh grid from the walls of `bug`,
/// walking the tiles inside the borders column by column; a flipped tile
/// toggles its wall, and the pass gives up when a flipped open tile cannot
/// take a wall.
pub fn anneal_with<const WIDTH: usize, const SIZE: usize>(bug: BitBug<WIDTH, SIZE>, flips: &Vec<Vec<bool>>) -> (r: Option<BitBug<WIDTH, SIZE>>)
    requires
        WIDTH >= 1,
        SIZE / WIDTH >= 1,
        anneal_asks_count(
            bug@.grid.cells,
            flips.deep_view(),
            WIDTH as int,
            inner_span(SIZE as int / WIDTH as int),
            inner_span(WIDTH as int),
        ) <= u16::MAX,
        flips@.len() == inner_span(WIDTH as int),
        forall|i: int| 0 <= i < flips@.len() ==> #[trigger] flips@[i]@.len() == inner_span(SIZE as int / WIDTH as int),
    ensures
        r is None <==> anneal_walls(
            bug@.grid.cells,
            Some(fresh_grid(WIDTH as int, SIZE as int)),
            flips.deep_view(),
            WIDTH as int,
            SIZE as int / WIDTH as int,
            inner_span(WIDTH as int),
        ) is None,
        r matches Some(b) ==> b@ == start_bug(
            anneal_walls(
                bug@.grid.cells,
                Some(fresh_grid(WIDTH as int, SIZE as int)),
                flips.deep_view(),
                WIDTH as int,
                SIZE as int / WIDTH as int,
                inner_span(WIDTH as int),
            )->Some_0,
        ),
        forall|a: int, b: int|
            interior(WIDTH as int, SIZE as int / WIDTH as int, a, b) && flips.deep_view()[a - 1][b - 1] && #[trigger] at(
                bug@.grid.cells,
                WIDTH as int,
                a,
                b,
            ) >= wall_three() ==> (r matches Some(nb) ==> at(nb@.grid.cells, WIDTH as int, a, b) == 0),
{
    proof {
        assert forall|a: int, b: int|
            interior(WIDTH as int, SIZE as int / WIDTH as int, a, b) && flips.deep_view()[a - 1][b - 1] && #[trigger] at(
                bug@.grid.cells,
                WIDTH as int,
                a,
                b,
            ) >= wall_three() implies anneal_walls(
            bug@.grid.cells,
            Some(fresh_grid(WIDTH as int, SIZE as int)),
            flips.deep_view(),
            WIDTH as int,
            SIZE as int / WIDTH as int,
            inner_span(WIDTH as int),
        ) matches Some(g) ==> at(g.cells, WIDTH as int, a, b) == 0 by {
            lemma_flipped_wall_dropped(bug@.grid.cells, flips.deep_view(), WIDTH as int, SIZE as int, a, b);
        }
    }
    let ghost w = WIDTH as int;
    let ghost h = SIZE as int / WIDTH as int;
    let ghost p = flips.deep_view();
    let ghost src = bug@.grid.cells;
    let mut nbug = BitBug::<WIDTH, SIZE>::default();
    proof {
        nbug.lemma_shape();
        bug.lemma_shape();
        lemma_fresh_border(w, SIZE as int);
        assert(p.len() == flips@.len());
    }
    let ghost g0 = nbug@.grid;
    let x_end = WIDTH - 1;
    let mut x: usize = 1;
    while x < x_end
        invariant
            w == WIDTH as int,
            h == SIZE as int / WIDTH as int,
            h == TileGrid::<WIDTH, SIZE>::height(),
            x_end == w - 1,
            1 <= x,
            x <= x_end || x == 1,
            w >= 1,
            h >= 1,
            anneal_asks_count(src, p, w, inner_span(h), inner_span(w)) <= u16::MAX,
            w * h <= SIZE,
            src == bug@.grid.cells,
            src.len() == SIZE,
            p == flips.deep_view(),
            p.len() == inner_span(w),
            forall|i: int| 0 <= i < p.len() ==> #[trigger] p[i].len() == inner_span(h),
            g0 == fresh_grid(w, SIZE as int),
            anneal_walls(src, Some(g0), p, w, h, (x - 1) as nat) == Some(nbug@.grid),
            nbug@ == start_bug(nbug@.grid),
            nbug@.grid.cells.len() == SIZE,
            border_walled(nbug@.grid.cells, w, h),
            nbug@.grid.walls <= anneal_asks_count(src, p, w, inner_span(h), (x - 1) as nat),
        decreases x_end - x,
    {
        let ghost gx = anneal_walls(src, Some(g0), p, w, h, (x - 1) as nat);
        let y_end = SIZE / WIDTH - 1;
        let mut y: usize = 1;
        while y < y_end
            invariant
                w == WIDTH as int,
                h == SIZE as int / WIDTH as int,
                h == TileGrid::<WIDTH, SIZE>::height(),
                y_end == h - 1,
                1 <= y,
                y <= y_end || y == 1,
                w >= 1,
                h >= 1,
                anneal_asks_count(src, p, w, inner_span(h), inner_span(w)) <= u16::MAX,
                w * h <= SIZE,
                1 <= x <= w - 2,
                src == bug@.grid.cells,
                src.len() == SIZE,
                p == flips.deep_view(),
                p.len() == inner_span(w),
                forall|i: int| 0 <= i < p.len() ==> #[trigger] p[i].len() == inner_span(h),
                gx == anneal_walls(src, Some(g0), p, w, h, (x - 1) as nat),
                g0 == fresh_grid(w, SIZE as int),
                anneal_column(src, gx, p[x - 1], w, h, x as int, (y - 1) as nat) == Some(nbug@.grid),
                nbug@ == start_bug(nbug@.grid),
                nbug@.grid.cells.len() == SIZE,
                border_walled(nbug@.grid.cells, w, h),
                nbug@.grid.walls <= anneal_asks_count(src, p, w, inner_span(h), (x - 1) as nat) + asks_in_column(
                    src,
                    p[x - 1],
                    w,
                    x as int,
                    (y - 1) as nat,
                ),
            decreases y_end - y,
        {
            proof {
                assert(flips@[x - 1]@ == p[x - 1]);
                lemma_asks_in_column_mono(src, p[x - 1], w, x as int, y as nat, inner_span(h));
                lemma_anneal_asks_count_mono(src, p, w, inner_span(h), x as nat, inner_span(w));
                lemma_index_in_range(w, h, x as int, y as int);
                bug.lemma_view();
            }
            if flips[x - 1][y - 1] {
                if bug.tiles.get(x, y) < TILE_MAX - 2 {
                    let mut b2 = nbug.clone();
                    if b2.set_wall(x, y) {
                        nbug.set_wall(x, y);
                    } else {
                        proof {
                            let n = inner_span(h);
                            lemma_anneal_column_fails(src, gx, p[x - 1], w, h, x as int, y as nat, n);
                            lemma_anneal_walls_fails(src, Some(g0), p, w, h, x as nat, inner_span(w));
                        }
                        return None;
                    }
                }
            } else if bug.tiles.get(x, y) > TILE_MAX - 3 {
                let mut b2 = nbug.clone();
                if b2.set_wall(x, y) {
                    nbug.set_wall(x, y);
                }
            }
            proof {
                nbug.lemma_shape();
            }
            y += 1;
        }
        proof {
            assert(y - 1 == inner_span(h));
        }
        x += 1;
    }
    Some(nbug)
}

/// An annealing search over wall placements: the game the chain stands on,
/// with its step count, and the longest game found so far, with its step count.
pub struct Annealer<const WIDTH: usize, const SIZE: usize> {
    pub(crate) best_bug: BitBug<WIDTH, SIZE>,
    pub(crate) best_score: u64,
    pub(crate) true_best: BitBug<WIDTH, SIZE>,
    pub(crate) true_score: u64,
}

/// The abstract state of an annealing search.
pub struct AnnealModel {
    pub best_bug: BugModel,
    pub best_score: u64,
    pub true_best: BugModel,
    pub true_score: u64,
}

impl<const WIDTH: usize, const SIZE: usize> View for Annealer<WIDTH, SIZE> {
    type V = AnnealModel;

    closed spec fn view(&self) -> AnnealModel {
        AnnealModel {
            best_bug: self.best_bug@,
            best_score: self.best_score,
            true_best: self.true_best@,
            true_score: self.true_score,
        }
    }
}

/// The state after a candidate game with step count `steps` was looked at: it
/// becomes the longest game if it beats it, and the chain moves to it if it
/// was accepted.
pub open spec fn considered(a: AnnealModel, game: BugModel, steps: u64, accept: bool) -> AnnealModel {
    let t = if steps > a.true_score {
        AnnealModel { true_best: game, true_score: steps, ..a }
    } else {
        a
    };
    if accept {
        AnnealModel { best_bug: game, best_score: steps, ..t }
    } else {
        t
    }
}

impl<const WIDTH: usize, const SIZE: usize> Annealer<WIDTH, SIZE> {
    /// An annealing search that starts from `value`: the chain and the longest
    /// game are both `value`, scored by the steps of its walk to the goal.
    pub fn from(value: BitBug<WIDTH, SIZE>) -> (a: Self)
        requires
            WIDTH >= 2,
            SIZE / WIDTH >= 2,
        ensures
            a@ == (AnnealModel {
                best_bug: value@,
                best_score: run_out(value@, WIDTH as int, SIZE as int / WIDTH as int, SIZE as int).0.steps,
                true_best: value@,
                true_score: run_out(value@, WIDTH as int, SIZE as int / WIDTH as int, SIZE as int).0.steps,
            }),
    {
        let mut first = value.clone();
        let best_score = first.simulate();
        let mut second = value.clone();
        let true_score = second.simulate();
        Annealer { best_bug: value.clone(), best_score, true_best: value.clone(), true_score }
    }

    /// Looks at a candidate game that walks `steps` steps: it becomes the
    /// longest game if it beats it, and the chain moves to it if `accept`.
    /// Says whether it beat the longest game.
    pub fn consider(&mut self, game: BitBug<WIDTH, SIZE>, steps: u64, accept: bool) -> (improved: bool)
        ensures
            improved == (steps > old(self)@.true_score),
            final(self)@ == considered(old(self)@, game@, steps, accept),
            accept ==> final(self)@.best_bug == game@ && final(self)@.best_score == steps,
            !accept ==> final(self)@.best_bug == old(self)@.best_bug && final(self)@.best_score == old(self)@.best_score,
            improved ==> final(self)@.true_best == game@ && final(self)@.true_score == steps,
            !improved ==> final(self)@.true_best == old(self)@.true_best && final(self)@.true_score == old(self)@.true_score,
    {
        let improved = steps > self.true_score;
        if improved {
            self.true_best = game.clone();
            self.true_score = steps;
        }
        if accept {
            self.best_score = steps;
            self.best_bug = game;
        }
        improved
    }

    /// Moves the chain back to the longest game found.
    pub fn restart(&mut self)
        ensures
            final(self)@ == (AnnealModel {
                best_bug: old(self)@.true_best,
                best_score: old(self)@.true_score,
                ..old(self)@
            }),
    {
        self.best_bug = self.true_best.clone();
        self.best_score = self.true_score;
    }

    /// The game the chain stands on.
    pub fn best_bug(&self) -> (r: BitBug<WIDTH, SIZE>)
        ensures
            r@ == self@.best_bug,
    {
        self.best_bug
    }

    /// The step count of the game the chain stands on.
    pub fn best_score(&self) -> (r: u64)
        ensures
            r == self@.best_score,
    {
        self.best_score
    }

    /// The longest game found.
    pub fn true_best(&self) -> (r: BitBug<WIDTH, SIZE>)
        ensures
            r@ == self@.true_best,
    {
        self.true_best
    }

    /// The step count of the longest game found.
    pub fn true_score(&self) -> (r: u64)
        ensures
            r == self@.true_score,
    {
        self.true_score
    }
}

/// The longest game changes only to a candidate with strictly more steps, and
/// if the longest score is the step count of the longest game's walk, and the
/// candidate is scored by its own walk, that stays so (`Annealer::from` starts
/// in that state).
pub proof fn lemma_considered_scores_best(
    a: AnnealModel,
    game: BugModel,
    steps: u64,
    accept: bool,
    w: int,
    h: int,
    size: int,
)
    ensures
        considered(a, game, steps, accept).true_best == a.true_best || (considered(a, game, steps, accept).true_best
            == game && steps > a.true_score),
        a.true_score == run_out(a.true_best, w, h, size).0.steps && steps == run_out(game, w, h, size).0.steps
            ==> considered(a, game, steps, accept).true_score == run_out(
            considered(a, game, steps, accept).true_best,
            w,
            h,
            size,
        ).0.steps,
{
}

/// An accepted candidate becomes the game the chain stands on, with its step
/// count; a rejected one leaves the chain where it was.  Either way the
/// longest game is the candidate exactly when it beats the longest score.
pub proof fn lemma_considered_moves_chain(a: AnnealModel, game: BugModel, steps: u64, accept: bool)
    ensures
        accept ==> considered(a, game, steps, accept).best_bug == game && considered(a, game, steps, accept).best_score
            == steps,
        !accept ==> considered(a, game, steps, accept).best_bug == a.best_bug && considered(
            a,
            game,
            steps,
            accept,
        ).best_score == a.best_score,
        steps > a.true_score ==> considered(a, game, steps, accept).true_best == game && considered(
            a,
            game,
            steps,
            accept,
        ).true_score == steps,
        steps <= a.true_score ==> considered(a, game, steps, accept).true_best == a.true_best && considered(
            a,
            game,
            steps,
            accept,
        ).true_score == a.true_score,
{
}

/// The step count of the longest game never falls, and after a candidate is
/// looked at it is at least the candidate's step count, accepted or not.
pub proof fn lemma_considered_keeps_best(a: AnnealModel, game: BugModel, steps: u64, accept: bool)
    ensures
        considered(a, game, steps, accept).true_score >= a.true_score,
        considered(a, game, steps, accept).true_score >= steps,
{
}

proof fn lemma_column_separated(g: GridModel, picks: Seq<bool>, w: int, h: int, x: int, n: nat)
    requires
        1 <= x,
        x + 1 < w,
        n <= inner_span(h),
        g.cells.len() >= w * h,
        separated(g.cells, w, h),
    ensures
        separated(random_column(g, picks, w, h, x, n).cells, w, h),
        random_column(g, picks, w, h, x, n).cells.len() == g.cells.len(),
    decreases n,
{
    if n > 0 {
        lemma_column_separated(g, picks, w, h, x, (n - 1) as nat);
        let g1 = random_column(g, picks, w, h, x, (n - 1) as nat);
        lemma_placed_separated(g1, w, h, x, n as int);
        lemma_placed_frame(g1, w, h, x, n as int);
    }
}

proof fn lemma_walls_separated(g: GridModel, picks: Seq<Seq<bool>>, w: int, h: int, n: nat)
    requires
        n <= inner_span(w),
        g.cells.len() >= w * h,
        separated(g.cells, w, h),
    ensures
        separated(random_walls(g, picks, w, h, n).cells, w, h),
        random_walls(g, picks, w, h, n).cells.len() == g.cells.len(),
    decreases n,
{
    if n > 0 {
        lemma_walls_separated(g, picks, w, h, (n - 1) as nat);
        lemma_column_separated(random_walls(g, picks, w, h, (n - 1) as nat), picks[n - 1], w, h, n as int, inner_span(h));
    }
}

proof fn lemma_anneal_column_separated(src: Seq<u16>, og: Option<GridModel>, flips: Seq<bool>, w: int, h: int, x: int, n: nat)
    requires
        1 <= x,
        x + 1 < w,
        n <= inner_span(h),
        og matches Some(g) ==> g.cells.len() >= w * h && separated(g.cells, w, h),
    ensures
        anneal_column(src, og, flips, w, h, x, n) matches Some(g) ==> g.cells.len() >= w * h && separated(g.cells, w, h),
    decreases n,
{
    if n > 0 {
        lemma_anneal_column_separated(src, og, flips, w, h, x, (n - 1) as nat);
        if let Some(g1) = anneal_column(src, og, flips, w, h, x, (n - 1) as nat) {
            lemma_placed_separated(g1, w, h, x, n as int);
            lemma_placed_frame(g1, w, h, x, n as int);
        }
    }
}

proof fn lemma_anneal_walls_separated(src: Seq<u16>, og: Option<GridModel>, flips: Seq<Seq<bool>>, w: int, h: int, n: nat)
    requires
        n <= inner_span(w),
        og matches Some(g) ==> g.cells.len() >= w * h && separated(g.cells, w, h),
    ensures
        anneal_walls(src, og, flips, w, h, n) matches Some(g) ==> g.cells.len() >= w * h && separated(g.cells, w, h),
    decreases n,
{
    if n > 0 {
        lemma_anneal_walls_separated(src, og, flips, w, h, (n - 1) as nat);
        lemma_anneal_column_separated(
            src,
            anneal_walls(src, og, flips, w, h, (n - 1) as nat),
            flips[n - 1],
            w,
            h,
            n as int,
            inner_span(h),
        );
    }
}

proof fn lemma_fresh_len(w: int, size: int)
    requires
        0 < w,
        0 <= size,
    ensures
        fresh_grid(w, size).cells.len() >= w * (size / w),
{
    vstd::arithmetic::div_mod::lemma_fundamental_div_mod(size, w);
    assert(w * (size / w) <= size) by (nonlinear_arith)
        requires
            size == w * (size / w) + size % w,
            0 <= size % w,
    ;
}

/// Whatever the coins, the random walls put on a fresh grid keep the wall
/// kinds apart.
pub proof fn lemma_generated_separated(picks: Seq<Seq<bool>>, w: int, size: int)
    requires
        0 < w,
        0 <= size,
    ensures
        separated(random_walls(fresh_grid(w, size), picks, w, size / w, inner_span(w)).cells, w, size / w),
{
    lemma_fresh_separated(w, size);
    lemma_fresh_len(w, size);
    lemma_walls_separated(fresh_grid(w, size), picks, w, size / w, inner_span(w));
}

/// Whatever the game it starts from and the flips, an annealing pass that
/// succeeds gives a grid that keeps the wall kinds apart.
pub proof fn lemma_annealed_separated(src: Seq<u16>, flips: Seq<Seq<bool>>, w: int, size: int)
    requires
        0 < w,
        0 <= size,
    ensures
        anneal_walls(src, Some(fresh_grid(w, size)), flips, w, size / w, inner_span(w)) matches Some(g)
            ==> separated(g.cells, w, size / w),
{
    lemma_fresh_separated(w, size);
    lemma_fresh_len(w, size);
    lemma_anneal_walls_separated(src, Some(fresh_grid(w, size)), flips, w, size / w, inner_span(w));
}

/// Every picked tile of columns before `xs`, and of rows up to `ys` of column
/// `xs`, that is still open could not take a wall.
pub open spec fn picked_open_refused(c: Seq<u16>, p: Seq<Seq<bool>>, w: int, h: int, xs: int, ys: int) -> bool {
    forall|a: int, b: int|
        1 <= a && 1 <= b <= inner_span(h) && (a < xs || (a == xs && b <= ys)) && p[a - 1][b - 1] && at(c, w, a, b)
            < wall_three() ==> !#[trigger] wall_allowed(c, w, a, b)
}

proof fn lemma_fresh_anchored(w: int, size: int)
    requires
        0 < w,
        0 <= size,
    ensures
        anchored(fresh_grid(w, size).cells, w, size / w),
{
    let h = size / w;
    let c = fresh_grid(w, size).cells;
    lemma_fresh_len(w, size);
    assert forall|a: int, b: int| interior(w, h, a, b) implies #[trigger] anchored_at(c, w, a, b) by {
        lemma_index_in_range(w, h, a, b);
        lemma_index_coords(w, h, a, b);
    }
}

/// A refusal stays a refusal after a request on a grid whose kinds are apart
/// and anchored, and an open tile other than the requested one stays open.
proof fn lemma_refusal_kept(g: GridModel, w: int, h: int, x: int, y: int, a: int, b: int)
    requires
        interior(w, h, x, y),
        interior(w, h, a, b),
        g.cells.len() >= w * h,
        separated(g.cells, w, h),
        anchored(g.cells, w, h),
        !wall_allowed(g.cells, w, a, b),
        at(placed(g, w, h, x, y).cells, w, a, b) < wall_three(),
    ensures
        !wall_allowed(placed(g, w, h, x, y).cells, w, a, b),
        at(g.cells, w, a, b) < wall_three(),
{
    lemma_placed_stable(g, w, h, x, y);
    let c = g.cells;
    let q = placed(g, w, h, x, y).cells;
    let k1 = choose|k: int| 0 <= k < 8 && #[trigger] at(c, w, nbr_x(a, k), nbr_y(b, k)) == wall_one();
    let k2 = choose|k: int| 0 <= k < 8 && #[trigger] at(c, w, nbr_x(a, k), nbr_y(b, k)) == wall_two();
    lemma_nbr_of_interior(w, h, a, b, k1);
    lemma_nbr_of_interior(w, h, a, b, k2);
    assert(at(q, w, nbr_x(a, k1), nbr_y(b, k1)) == wall_one());
    assert(at(q, w, nbr_x(a, k2), nbr_y(b, k2)) == wall_two());
    if at(c, w, a, b) >= wall_three() {
        assert(in_grid(w, h, a, b));
    }
}

proof fn lemma_column_maximal(g: GridModel, p: Seq<Seq<bool>>, w: int, h: int, x: int, n: nat)
    requires
        1 <= x,
        x + 1 < w,
        n <= inner_span(h),
        g.cells.len() >= w * h,
        separated(g.cells, w, h),
        anchored(g.cells, w, h),
        picked_open_refused(g.cells, p, w, h, x, 0),
    ensures
        separated(random_column(g, p[x - 1], w, h, x, n).cells, w, h),
        anchored(random_column(g, p[x - 1], w, h, x, n).cells, w, h),
        random_column(g, p[x - 1], w, h, x, n).cells.len() == g.cells.len(),
        picked_open_refused(random_column(g, p[x - 1], w, h, x, n).cells, p, w, h, x, n as int),
    decreases n,
{
    if n > 0 {
        lemma_column_maximal(g, p, w, h, x, (n - 1) as nat);
        let g1 = random_column(g, p[x - 1], w, h, x, (n - 1) as nat);
        let y = n as int;
        let r = random_column(g, p[x - 1], w, h, x, n);
        lemma_placed_separated(g1, w, h, x, y);
        lemma_placed_stable(g1, w, h, x, y);
        if p[x - 1][n - 1] && wall_allowed(g1.cells, w, x, y) {
            lemma_granted_is_wall(g1, w, h, x, y);
            assert(r == placed(g1, w, h, x, y));
            assert forall|a: int, b: int|
                1 <= a && 1 <= b <= inner_span(h) && (a < x || (a == x && b <= y)) && p[a - 1][b - 1] && at(
                    r.cells,
                    w,
                    a,
                    b,
                ) < wall_three() implies !#[trigger] wall_allowed(r.cells, w, a, b) by {
                if a != x || b != y {
                    assert(interior(w, h, a, b));
                    lemma_refusal_kept(g1, w, h, x, y, a, b);
                    assert(!wall_allowed(g1.cells, w, a, b));
                    lemma_refusal_kept(g1, w, h, x, y, a, b);
                }
            }
        } else {
            assert(r == g1);
            assert forall|a: int, b: int|
                1 <= a && 1 <= b <= inner_span(h) && (a < x || (a == x && b <= y)) && p[a - 1][b - 1] && at(
                    r.cells,
                    w,
                    a,
                    b,
                ) < wall_three() implies !#[trigger] wall_allowed(r.cells, w, a, b) by {
                if a != x || b != y {
                    assert(!wall_allowed(g1.cells, w, a, b));
                }
            }
        }
    }
}

proof fn lemma_walls_maximal(g: GridModel, p: Seq<Seq<bool>>, w: int, h: int, n: nat)
    requires
        n <= inner_span(w),
        g.cells.len() >= w * h,
        separated(g.cells, w, h),
        anchored(g.cells, w, h),
    ensures
        separated(random_walls(g, p, w, h, n).cells, w, h),
        anchored(random_walls(g, p, w, h, n).cells, w, h),
        random_walls(g, p, w, h, n).cells.len() == g.cells.len(),
        picked_open_refused(random_walls(g, p, w, h, n).cells, p, w, h, n as int, inner_span(h) as int),
    decreases n,
{
    if n > 0 {
        lemma_walls_maximal(g, p, w, h, (n - 1) as nat);
        let g1 = random_walls(g, p, w, h, (n - 1) as nat);
        assert(picked_open_refused(g1.cells, p, w, h, n as int, 0)) by {
            assert forall|a: int, b: int|
                1 <= a && 1 <= b <= inner_span(h) && (a < n || (a == n && b <= 0)) && p[a - 1][b - 1] && at(
                    g1.cells,
                    w,
                    a,
                    b,
                ) < wall_three() implies !#[trigger] wall_allowed(g1.cells, w, a, b) by {
                assert(a < n - 1 || (a == n - 1 && b <= inner_span(h)));
            }
        }
        lemma_column_maximal(g1, p, w, h, n as int, inner_span(h));
    } else {
        assert(picked_open_refused(g.cells, p, w, h, 0, inner_span(h) as int));
    }
}

/// Random walls on a fresh grid leave no picked tile open that could still take
/// a wall: every picked tile that stayed open is refused, so asking again for
/// a wall there changes nothing.
pub proof fn lemma_generated_maximal(picks: Seq<Seq<bool>>, w: int, size: int, a: int, b: int)
    requires
        0 < w,
        0 <= size,
        1 <= a <= inner_span(w),
        1 <= b <= inner_span(size / w),
        picks[a - 1][b - 1],
        at(random_walls(fresh_grid(w, size), picks, w, size / w, inner_span(w)).cells, w, a, b) < wall_three(),
    ensures
        !wall_allowed(random_walls(fresh_grid(w, size), picks, w, size / w, inner_span(w)).cells, w, a, b),
{
    lemma_fresh_separated(w, size);
    lemma_fresh_anchored(w, size);
    lemma_fresh_len(w, size);
    lemma_walls_maximal(fresh_grid(w, size), picks, w, size / w, inner_span(w));
    let g = random_walls(fresh_grid(w, size), picks, w, size / w, inner_span(w));
    assert(!wall_allowed(g.cells, w, a, b));
}

/// Every wall of `g` is a wall of `src`, and every wall of a border kind in `g`
/// has the same kind in `src`.
pub open spec fn mirrors(g: Seq<u16>, src: Seq<u16>, w: int, h: int) -> bool {
    forall|a: int, b: int|
        in_grid(w, h, a, b) ==> {
            &&& (#[trigger] at(g, w, a, b) == wall_one() || at(g, w, a, b) == wall_two()) ==> at(src, w, a, b)
                == at(g, w, a, b)
            &&& at(g, w, a, b) >= wall_three() ==> at(src, w, a, b) >= wall_three()
        }
}

/// Every wall of `src` in the columns before `xs`, and in rows up to `ys` of
/// column `xs`, is a wall of `g`.
pub open spec fn walls_rebuilt(g: Seq<u16>, src: Seq<u16>, w: int, h: int, xs: int, ys: int) -> bool {
    forall|a: int, b: int|
        1 <= a && 1 <= b <= inner_span(h) && (a < xs || (a == xs && b <= ys)) && #[trigger] at(src, w, a, b)
            >= wall_three() ==> at(g, w, a, b) >= wall_three()
}

/// A wall of `src` touching a wall of kind `t` of `src` has kind `t` too.
proof fn lemma_src_kind(src: Seq<u16>, w: int, h: int, t: u16, a: int, b: int, k: int)
    requires
        separated(src, w, h),
        interior(w, h, a, b),
        t == wall_one() || t == wall_two(),
        0 <= k < 8,
        at(src, w, a, b) >= wall_three(),
        at(src, w, nbr_x(a, k), nbr_y(b, k)) == t,
    ensures
        at(src, w, a, b) == t,
{
    assert(kind_kept(src, w, a, b));
    assert(has_nbr(src, w, a, b, t));
}

proof fn lemma_level_src(g: Seq<u16>, src: Seq<u16>, w: int, h: int, t: u16, x: int, y: int, n: nat)
    requires
        separated(src, w, h),
        t == wall_one() || t == wall_two(),
        interior(w, h, x, y),
        at(src, w, x, y) == t,
        forall|a: int, b: int| in_grid(w, h, a, b) && #[trigger] at(g, w, a, b) == wall_three() ==> at(src, w, a, b) >= wall_three(),
    ensures
        forall|a: int, b: int| #[trigger] level(g, w, h, t, x, y, n).contains((a, b)) ==> at(src, w, a, b) == t,
    decreases n,
{
    if n > 0 {
        lemma_level_src(g, src, w, h, t, x, y, (n - 1) as nat);
        let prev = level(g, w, h, t, x, y, (n - 1) as nat);
        assert forall|a: int, b: int| #[trigger] level(g, w, h, t, x, y, n).contains((a, b)) implies at(src, w, a, b) == t by {
            if !prev.contains((a, b)) {
                let k = choose|k: int| 0 <= k < 8 && #[trigger] prev.contains((nbr_x(a, k), nbr_y(b, k)));
                assert(clean(g, w, h, t, a, b));
                assert(at(src, w, nbr_x(a, k), nbr_y(b, k)) == t);
                lemma_src_kind(src, w, h, t, a, b, k);
            }
        }
    }
}

/// Rebuilding a wall of `src` on a grid that mirrors `src`: the wall is
/// allowed, it and every wall it floods take their kind in `src`, and no wall
/// is lost.
proof fn lemma_rebuild_step(g: GridModel, src: Seq<u16>, w: int, h: int, x: int, y: int)
    requires
        interior(w, h, x, y),
        g.cells.len() >= w * h,
        mirrors(g.cells, src, w, h),
        separated(src, w, h),
        at(src, w, x, y) >= wall_three(),
    ensures
        wall_allowed(g.cells, w, x, y),
        mirrors(placed(g, w, h, x, y).cells, src, w, h),
        at(placed(g, w, h, x, y).cells, w, x, y) >= wall_three(),
        forall|a: int, b: int|
            in_grid(w, h, a, b) && at(g.cells, w, a, b) >= wall_three() ==> #[trigger] at(
                placed(g, w, h, x, y).cells,
                w,
                a,
                b,
            ) >= wall_three(),
        placed(g, w, h, x, y).cells.len() == g.cells.len(),
{
    let c = g.cells;
    let i = x + y * w;
    lemma_index_in_range(w, h, x, y);
    let ones = has_nbr(c, w, x, y, wall_one());
    let twos = has_nbr(c, w, x, y, wall_two());
    let pc = placed(g, w, h, x, y).cells;
    if ones {
        let k = choose|k: int| 0 <= k < 8 && #[trigger] at(c, w, nbr_x(x, k), nbr_y(y, k)) == wall_one();
        lemma_nbr_of_interior(w, h, x, y, k);
        assert(at(src, w, nbr_x(x, k), nbr_y(y, k)) == wall_one());
        lemma_src_kind(src, w, h, wall_one(), x, y, k);
    }
    if twos {
        let k = choose|k: int| 0 <= k < 8 && #[trigger] at(c, w, nbr_x(x, k), nbr_y(y, k)) == wall_two();
        lemma_nbr_of_interior(w, h, x, y, k);
        assert(at(src, w, nbr_x(x, k), nbr_y(y, k)) == wall_two());
        lemma_src_kind(src, w, h, wall_two(), x, y, k);
    }
    assert(!(ones && twos));
    if !ones && !twos {
        assert forall|a: int, b: int| in_grid(w, h, a, b) implies #[trigger] at(pc, w, a, b) == if a == x && b == y {
            wall_three()
        } else {
            at(c, w, a, b)
        } by {
            lemma_at_update(c, w, h, x, y, wall_three(), a, b);
        }
    } else {
        let t = if ones { wall_one() } else { wall_two() };
        let gg = c.update(i, t);
        assert(pc == flood(gg, w, h, t, x, y));
        assert forall|a: int, b: int| in_grid(w, h, a, b) && #[trigger] at(gg, w, a, b) == wall_three() implies at(src, w, a, b)
            >= wall_three() by {
            lemma_at_update(c, w, h, x, y, t, a, b);
        }
        lemma_reach_start(gg, w, h, t, x, y);
        assert forall|a: int, b: int| in_grid(w, h, a, b) implies #[trigger] at(pc, w, a, b) == if reach(
            gg,
            w,
            h,
            t,
            x,
            y,
            a,
            b,
        ) {
            t
        } else {
            at(c, w, a, b)
        } && (reach(gg, w, h, t, x, y, a, b) ==> at(src, w, a, b) == t) by {
            lemma_flood_at(gg, w, h, t, x, y, a, b);
            lemma_at_update(c, w, h, x, y, t, a, b);
            if reach(gg, w, h, t, x, y, a, b) {
                let n = choose|n: nat| #[trigger] level(gg, w, h, t, x, y, n).contains((a, b));
                lemma_level_src(gg, src, w, h, t, x, y, n);
            }
        }
    }
}

proof fn lemma_noflip_column(src: Seq<u16>, g: GridModel, col: Seq<bool>, w: int, h: int, x: int, n: nat)
    requires
        1 <= x,
        x + 1 < w,
        n <= inner_span(h),
        forall|j: int| 0 <= j < inner_span(h) ==> !#[trigger] col[j],
        g.cells.len() >= w * h,
        mirrors(g.cells, src, w, h),
        separated(src, w, h),
        walls_rebuilt(g.cells, src, w, h, x, 0),
    ensures
        anneal_column(src, Some(g), col, w, h, x, n) is Some,
        anneal_column(src, Some(g), col, w, h, x, n) matches Some(g2) ==> g2.cells.len() == g.cells.len()
            && mirrors(g2.cells, src, w, h) && walls_rebuilt(g2.cells, src, w, h, x, n as int),
    decreases n,
{
    if n > 0 {
        lemma_noflip_column(src, g, col, w, h, x, (n - 1) as nat);
        let g1 = anneal_column(src, Some(g), col, w, h, x, (n - 1) as nat)->Some_0;
        let y = n as int;
        assert(!col[n - 1]);
        if at(src, w, x, y) > TILE_MAX - 3 {
            lemma_rebuild_step(g1, src, w, h, x, y);
            let g2 = placed(g1, w, h, x, y);
            assert(anneal_column(src, Some(g), col, w, h, x, n) == Some(g2));
            assert forall|a: int, b: int|
                1 <= a && 1 <= b <= inner_span(h) && (a < x || (a == x && b <= y)) && #[trigger] at(src, w, a, b)
                    >= wall_three() implies at(g2.cells, w, a, b) >= wall_three() by {
                if a != x || b != y {
                    assert(at(g1.cells, w, a, b) >= wall_three());
                    assert(in_grid(w, h, a, b));
                }
            }
        } else {
            assert(anneal_column(src, Some(g), col, w, h, x, n) == Some(g1));
        }
    }
}

proof fn lemma_noflip_walls(src: Seq<u16>, g: GridModel, flips: Seq<Seq<bool>>, w: int, h: int, n: nat)
    requires
        n <= inner_span(w),
        forall|i: int, j: int| 0 <= i < inner_span(w) && 0 <= j < inner_span(h) ==> !#[trigger] flips[i][j],
        g.cells.len() >= w * h,
        mirrors(g.cells, src, w, h),
        separated(src, w, h),
    ensures
        anneal_walls(src, Some(g), flips, w, h, n) is Some,
        anneal_walls(src, Some(g), flips, w, h, n) matches Some(g2) ==> g2.cells.len() == g.cells.len()
            && mirrors(g2.cells, src, w, h) && walls_rebuilt(g2.cells, src, w, h, n as int, inner_span(h) as int),
    decreases n,
{
    if n > 0 {
        lemma_noflip_walls(src, g, flips, w, h, (n - 1) as nat);
        let g1 = anneal_walls(src, Some(g), flips, w, h, (n - 1) as nat)->Some_0;
        assert(walls_rebuilt(g1.cells, src, w, h, n as int, 0)) by {
            assert forall|a: int, b: int|
                1 <= a && 1 <= b <= inner_span(h) && (a < n || (a == n && b <= 0)) && #[trigger] at(src, w, a, b)
                    >= wall_three() implies at(g1.cells, w, a, b) >= wall_three() by {
                assert(a < n - 1 || (a == n - 1 && b <= inner_span(h)));
            }
        }
        assert forall|j: int| 0 <= j < inner_span(h) implies !#[trigger] flips[n - 1][j] by {
            assert(!flips[n - 1][j]);
        }
        lemma_noflip_column(src, g1, flips[n - 1], w, h, n as int, inner_span(h));
    } else {
        assert(walls_rebuilt(g.cells, src, w, h, 0, inner_span(h) as int));
    }
}

/// An annealing pass with no flip, over a game whose grid keeps the wall kinds
/// apart and has fresh borders, succeeds and rebuilds exactly its walls inside
/// the borders.
pub proof fn lemma_noflip_keeps_walls(src: Seq<u16>, flips: Seq<Seq<bool>>, w: int, size: int)
    requires
        0 < w,
        0 <= size,
        src.len() >= w * (size / w),
        separated(src, w, size / w),
        border_fresh(src, w, size / w),
        forall|i: int, j: int| 0 <= i < inner_span(w) && 0 <= j < inner_span(size / w) ==> !#[trigger] flips[i][j],
    ensures
        anneal_walls(src, Some(fresh_grid(w, size)), flips, w, size / w, inner_span(w)) is Some,
        forall|a: int, b: int|
            interior(w, size / w, a, b) ==> (#[trigger] at(
                anneal_walls(src, Some(fresh_grid(w, size)), flips, w, size / w, inner_span(w))->Some_0.cells,
                w,
                a,
                b,
            ) >= wall_three() <==> at(src, w, a, b) >= wall_three()),
{
    let h = size / w;
    let f = fresh_grid(w, size);
    lemma_fresh_len(w, size);
    assert forall|a: int, b: int| in_grid(w, h, a, b) implies {
        &&& (#[trigger] at(f.cells, w, a, b) == wall_one() || at(f.cells, w, a, b) == wall_two()) ==> at(src, w, a, b)
            == at(f.cells, w, a, b)
        &&& at(f.cells, w, a, b) >= wall_three() ==> at(src, w, a, b) >= wall_three()
    } by {
        lemma_index_in_range(w, h, a, b);
        lemma_index_coords(w, h, a, b);
        if interior(w, h, a, b) {
        } else {
            assert(at(src, w, a, b) == crate::bug::grid_spec::fresh_tile(w, h, a, b));
        }
    }
    lemma_noflip_walls(src, f, flips, w, h, inner_span(w));
    let g = anneal_walls(src, Some(f), flips, w, h, inner_span(w))->Some_0;
    assert forall|a: int, b: int| interior(w, h, a, b) implies (#[trigger] at(g.cells, w, a, b) >= wall_three() <==> at(
        src,
        w,
        a,
        b,
    ) >= wall_three()) by {
        assert(in_grid(w, h, a, b));
        if at(src, w, a, b) >= wall_three() {
            assert(a < inner_span(w) || (a == inner_span(w) && b <= inner_span(h)));
        }
    }
}

proof fn lemma_anneal_cell_keeps(
    src: Seq<u16>,
    g: GridModel,
    flip: bool,
    w: int,
    h: int,
    x: int,
    y: int,
    a: int,
    b: int,
)
    requires
        interior(w, h, x, y),
        in_grid(w, h, a, b),
        g.cells.len() >= w * h,
        at(g.cells, w, a, b) == 0,
        (a, b) != (x, y) || (flip && at(src, w, x, y) >= wall_three()),
    ensures
        anneal_cell(src, g, flip, w, h, x, y) matches Some(g2) ==> g2.cells.len() == g.cells.len() && at(
            g2.cells,
            w,
            a,
            b,
        ) == 0,
{
    if (a, b) != (x, y) {
        lemma_placed_keeps_open(g, w, h, x, y, a, b);
    }
}

proof fn lemma_anneal_column_keeps(
    src: Seq<u16>,
    og: Option<GridModel>,
    col: Seq<bool>,
    w: int,
    h: int,
    x: int,
    n: nat,
    a: int,
    b: int,
)
    requires
        1 <= x,
        x + 1 < w,
        n <= inner_span(h),
        in_grid(w, h, a, b),
        og matches Some(g) ==> g.cells.len() >= w * h && at(g.cells, w, a, b) == 0,
        a == x && 1 <= b <= n ==> col[b - 1] && at(src, w, a, b) >= wall_three(),
    ensures
        anneal_column(src, og, col, w, h, x, n) matches Some(g) ==> g.cells.len() >= w * h && at(g.cells, w, a, b) == 0,
    decreases n,
{
    if n > 0 {
        lemma_anneal_column_keeps(src, og, col, w, h, x, (n - 1) as nat, a, b);
        if let Some(g1) = anneal_column(src, og, col, w, h, x, (n - 1) as nat) {
            lemma_anneal_cell_keeps(src, g1, col[n - 1], w, h, x, n as int, a, b);
        }
    }
}

proof fn lemma_anneal_walls_keeps(
    src: Seq<u16>,
    og: Option<GridModel>,
    flips: Seq<Seq<bool>>,
    w: int,
    h: int,
    n: nat,
    a: int,
    b: int,
)
    requires
        n <= inner_span(w),
        in_grid(w, h, a, b),
        og matches Some(g) ==> g.cells.len() >= w * h && at(g.cells, w, a, b) == 0,
        1 <= a <= inner_span(w) && 1 <= b <= inner_span(h) ==> flips[a - 1][b - 1] && at(src, w, a, b) >= wall_three(),
    ensures
        anneal_walls(src, og, flips, w, h, n) matches Some(g) ==> g.cells.len() >= w * h && at(g.cells, w, a, b) == 0,
    decreases n,
{
    if n > 0 {
        lemma_anneal_walls_keeps(src, og, flips, w, h, (n - 1) as nat, a, b);
        lemma_anneal_column_keeps(
            src,
            anneal_walls(src, og, flips, w, h, (n - 1) as nat),
            flips[n - 1],
            w,
            h,
            n as int,
            inner_span(h),
            a,
            b,
        );
    }
}

/// A flipped wall is dropped: at every tile inside the borders whose flip is
/// set and whose tile in `src` is a wall of any kind, loose or joined to a
/// border, a successful annealing pass leaves an open, unvisited tile.
pub proof fn lemma_flipped_wall_dropped(src: Seq<u16>, flips: Seq<Seq<bool>>, w: int, size: int, a: int, b: int)
    requires
        0 < w,
        0 <= size,
        interior(w, size / w, a, b),
        flips[a - 1][b - 1],
        at(src, w, a, b) >= wall_three(),
    ensures
        anneal_walls(src, Some(fresh_grid(w, size)), flips, w, size / w, inner_span(w)) matches Some(g) ==> at(
            g.cells,
            w,
            a,
            b,
        ) == 0,
{
    let h = size / w;
    lemma_fresh_len(w, size);
    lemma_index_in_range(w, h, a, b);
    lemma_index_coords(w, h, a, b);
    assert(at(fresh_grid(w, size).cells, w, a, b) == 0);
    lemma_anneal_walls_keeps(src, Some(fresh_grid(w, size)), flips, w, h, inner_span(w), a, b);
}

/// A flipped open tile gets a wall: at every tile inside the borders whose
/// flip is set and whose tile in `src` is open, a successful annealing pass
/// leaves a wall.
pub proof fn lemma_flipped_open_walled(src: Seq<u16>, flips: Seq<Seq<bool>>, w: int, size: int, a: int, b: int)
    requires
        0 < w,
        0 <= size,
        interior(w, size / w, a, b),
        flips[a - 1][b - 1],
        at(src, w, a, b) < wall_three(),
    ensures
        anneal_walls(src, Some(fresh_grid(w, size)), flips, w, size / w, inner_span(w)) matches Some(g) ==> at(
            g.cells,
            w,
            a,
            b,
        ) >= wall_three(),
{
    let h = size / w;
    lemma_fresh_len(w, size);
    lemma_anneal_walls_wall_stays(src, Some(fresh_grid(w, size)), flips, w, h, inner_span(w), a, b);
}

proof fn lemma_anneal_walls_wall_stays(
    src: Seq<u16>,
    og: Option<GridModel>,
    flips: Seq<Seq<bool>>,
    w: int,
    h: int,
    n: nat,
    a: int,
    b: int,
)
    requires
        n <= inner_span(w),
        interior(w, h, a, b),
        flips[a - 1][b - 1],
        at(src, w, a, b) < wall_three(),
        og matches Some(g) ==> g.cells.len() >= w * h && (a < 1 ==> at(g.cells, w, a, b) >= wall_three()),
    ensures
        anneal_walls(src, og, flips, w, h, n) matches Some(g) ==> g.cells.len() >= w * h && (a <= n ==> at(
            g.cells,
            w,
            a,
            b,
        ) >= wall_three()),
    decreases n,
{
    if n > 0 {
        lemma_anneal_walls_wall_stays(src, og, flips, w, h, (n - 1) as nat, a, b);
        lemma_anneal_column_wall_stays(
            src,
            anneal_walls(src, og, flips, w, h, (n - 1) as nat),
            flips[n - 1],
            w,
            h,
            n as int,
            inner_span(h),
            a,
            b,
            a <= n - 1,
        );
    }
}

proof fn lemma_anneal_column_wall_stays(
    src: Seq<u16>,
    og: Option<GridModel>,
    col: Seq<bool>,
    w: int,
    h: int,
    x: int,
    n: nat,
    a: int,
    b: int,
    done: bool,
)
    requires
        1 <= x,
        x + 1 < w,
        n <= inner_span(h),
        interior(w, h, a, b),
        a == x ==> col[b - 1],
        at(src, w, a, b) < wall_three(),
        og matches Some(g) ==> g.cells.len() >= w * h && (done ==> at(g.cells, w, a, b) >= wall_three()),
    ensures
        anneal_column(src, og, col, w, h, x, n) matches Some(g) ==> g.cells.len() >= w * h && (done || (a == x && b
            <= n) ==> at(g.cells, w, a, b) >= wall_three()),
    decreases n,
{
    if n > 0 {
        lemma_anneal_column_wall_stays(src, og, col, w, h, x, (n - 1) as nat, a, b, done);
        if let Some(g1) = anneal_column(src, og, col, w, h, x, (n - 1) as nat) {
            let y = n as int;
            lemma_placed_frame(g1, w, h, x, y);
            lemma_placed_walls_stay(g1, w, h, x, y, a, b);
            if a == x && b == y && wall_allowed(g1.cells, w, x, y) {
                lemma_granted_is_wall(g1, w, h, x, y);
            }
        }
    }
}

/// A wall request never turns a wall into an open tile.
proof fn lemma_placed_walls_stay(m: GridModel, w: int, h: int, x: int, y: int, a: int, b: int)
    requires
        interior(w, h, x, y),
        in_grid(w, h, a, b),
        m.cells.len() >= w * h,
    ensures
        at(m.cells, w, a, b) >= wall_three() ==> at(placed(m, w, h, x, y).cells, w, a, b) >= wall_three(),
{
    let c = m.cells;
    let i = x + y * w;
    lemma_index_in_range(w, h, x, y);
    lemma_at_update(c, w, h, x, y, wall_one(), a, b);
    lemma_at_update(c, w, h, x, y, wall_two(), a, b);
    lemma_at_update(c, w, h, x, y, wall_three(), a, b);
    lemma_flood_at(c.update(i, wall_one()), w, h, wall_one(), x, y, a, b);
    lemma_flood_at(c.update(i, wall_two()), w, h, wall_two(), x, y, a, b);
}

} // verus!
