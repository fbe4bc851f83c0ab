use vstd::prelude::*;
use crate::bug::grid_spec::{
    at, fresh_grid, wall_allowed, is_wall_value, fresh_tile, has_nbr, interior, nbr_x, nbr_y, opposite, placed, reach,
    flood, wall_one, wall_three, wall_two, GridModel, lemma_at_update, lemma_index_coords,
    lemma_index_in_range, lemma_nbr_of_interior, lemma_nbr_symmetric, in_grid,
};
use crate::bug::flood_lemmas::lemma_placed_frame;
use crate::bug::grid_spec::level;
use crate::bug::flood_lemmas::{lemma_flood_at, lemma_reach_clean, lemma_reach_start, lemma_reach_step};

verus! {

/// The tile at `(x, y)` keeps to its kind: a wall joined to the left or bottom
/// border touches no wall joined to the top or right border, nor the other way
/// round, and a loose wall touches neither kind.
pub open spec fn kind_kept(c: Seq<u16>, w: int, x: int, y: int) -> bool {
    &&& at(c, w, x, y) == wall_one() ==> !has_nbr(c, w, x, y, wall_two())
    &&& at(c, w, x, y) == wall_two() ==> !has_nbr(c, w, x, y, wall_one())
    &&& at(c, w, x, y) == wall_three() ==> !has_nbr(c, w, x, y, wall_one()) && !has_nbr(
        c,
        w,
        x,
        y,
        wall_two(),
    )
}

/// Inside the borders, every tile keeps to its kind: the walls grown from the
/// left and bottom borders never meet those grown from the top and right ones.
pub open spec fn separated(c: Seq<u16>, w: int, h: int) -> bool {
    forall|x: int, y: int| interior(w, h, x, y) ==> #[trigger] kind_kept(c, w, x, y)
}

/// A fresh grid keeps the wall kinds apart.
pub proof fn lemma_fresh_separated(w: int, size: int)
    requires
        0 < w,
        0 <= size,
    ensures
        separated(fresh_grid(w, size).cells, w, size / w),
{
    let h = size / w;
    let c = fresh_grid(w, size).cells;
    vstd::arithmetic::div_mod::lemma_fundamental_div_mod(size, w);
    assert forall|a: int, b: int| interior(w, h, a, b) implies #[trigger] kind_kept(c, w, a, b) by {
        lemma_index_in_range(w, h, a, b);
        lemma_index_coords(w, h, a, b);
        assert(w * h <= size) by (nonlinear_arith)
            requires
                size == w * h + size % w,
                0 <= size % w,
        ;
        assert(fresh_tile(w, h, a, b) == 0);
        assert(at(c, w, a, b) == 0);
    }
}

/// Setting one tile to a loose wall changes no neighbour of another kind.
proof fn lemma_update_nbr(c: Seq<u16>, w: int, h: int, x: int, y: int, a: int, b: int, v: u16)
    requires
        interior(w, h, x, y),
        interior(w, h, a, b),
        c.len() >= w * h,
        v != wall_three(),
        has_nbr(c.update(x + y * w, wall_three()), w, a, b, v),
    ensures
        has_nbr(c, w, a, b, v),
{
    let g = c.update(x + y * w, wall_three());
    let k = choose|k: int| 0 <= k < 8 && #[trigger] at(g, w, nbr_x(a, k), nbr_y(b, k)) == v;
    lemma_nbr_of_interior(w, h, a, b, k);
    lemma_at_update(c, w, h, x, y, wall_three(), nbr_x(a, k), nbr_y(b, k));
    assert(at(c, w, nbr_x(a, k), nbr_y(b, k)) == v);
}

/// A loose wall placed where it touches no wall keeps the kinds apart.
proof fn lemma_loose_separated(c: Seq<u16>, w: int, h: int, x: int, y: int)
    requires
        interior(w, h, x, y),
        c.len() >= w * h,
        separated(c, w, h),
        !has_nbr(c, w, x, y, wall_one()),
        !has_nbr(c, w, x, y, wall_two()),
    ensures
        separated(c.update(x + y * w, wall_three()), w, h),
{
    let g = c.update(x + y * w, wall_three());
    assert forall|a: int, b: int| interior(w, h, a, b) implies #[trigger] kind_kept(g, w, a, b) by {
        lemma_at_update(c, w, h, x, y, wall_three(), a, b);
        assert(kind_kept(c, w, a, b));
        if has_nbr(g, w, a, b, wall_one()) {
            lemma_update_nbr(c, w, h, x, y, a, b, wall_one());
        }
        if has_nbr(g, w, a, b, wall_two()) {
            lemma_update_nbr(c, w, h, x, y, a, b, wall_two());
        }
        if a == x && b == y {
            assert(has_nbr(g, w, a, b, wall_one()) ==> has_nbr(c, w, x, y, wall_one()));
            assert(has_nbr(g, w, a, b, wall_two()) ==> has_nbr(c, w, x, y, wall_two()));
        }
    }
}

/// After a flood of kind `t` from `(x, y)`, a tile of kind `t` touches no wall
/// of the opposite kind.
proof fn lemma_flood_cell_own(c: Seq<u16>, w: int, h: int, x: int, y: int, t: u16, a: int, b: int)
    requires
        interior(w, h, x, y),
        interior(w, h, a, b),
        c.len() >= w * h,
        separated(c, w, h),
        t == wall_one() || t == wall_two(),
        !has_nbr(c, w, x, y, opposite(t)),
        at(flood(c.update(x + y * w, t), w, h, t, x, y), w, a, b) == t,
    ensures
        !has_nbr(flood(c.update(x + y * w, t), w, h, t, x, y), w, a, b, opposite(t)),
{
    let g = c.update(x + y * w, t);
    let s = flood(g, w, h, t, x, y);
    let o = opposite(t);
    lemma_index_in_range(w, h, x, y);
    lemma_flood_at(g, w, h, t, x, y, a, b);
    lemma_at_update(c, w, h, x, y, t, a, b);
    lemma_reach_start(g, w, h, t, x, y);
    assert(kind_kept(c, w, a, b));
    assert forall|k: int| 0 <= k < 8 implies #[trigger] at(s, w, nbr_x(a, k), nbr_y(b, k)) != o by {
        let qa = nbr_x(a, k);
        let qb = nbr_y(b, k);
        lemma_nbr_of_interior(w, h, a, b, k);
        lemma_flood_at(g, w, h, t, x, y, qa, qb);
        lemma_at_update(c, w, h, x, y, t, qa, qb);
        if at(s, w, qa, qb) == o {
            if reach(g, w, h, t, x, y, a, b) {
                if a == x && b == y {
                    assert(at(c, w, nbr_x(x, k), nbr_y(y, k)) == o);
                } else {
                    lemma_reach_clean(g, w, h, t, x, y, a, b);
                    assert(at(g, w, qa, qb) == o);
                }
            } else {
                assert(at(c, w, qa, qb) == o);
            }
        }
    }
}

/// After a flood of kind `t` from `(x, y)`, a wall of the opposite kind
/// touches no tile of kind `t`.
proof fn lemma_flood_cell_other(c: Seq<u16>, w: int, h: int, x: int, y: int, t: u16, a: int, b: int)
    requires
        interior(w, h, x, y),
        interior(w, h, a, b),
        c.len() >= w * h,
        separated(c, w, h),
        t == wall_one() || t == wall_two(),
        !has_nbr(c, w, x, y, opposite(t)),
        at(flood(c.update(x + y * w, t), w, h, t, x, y), w, a, b) == opposite(t),
    ensures
        !has_nbr(flood(c.update(x + y * w, t), w, h, t, x, y), w, a, b, t),
{
    let g = c.update(x + y * w, t);
    let s = flood(g, w, h, t, x, y);
    let o = opposite(t);
    lemma_index_in_range(w, h, x, y);
    lemma_flood_at(g, w, h, t, x, y, a, b);
    lemma_at_update(c, w, h, x, y, t, a, b);
    lemma_reach_start(g, w, h, t, x, y);
    assert(kind_kept(c, w, a, b));
    assert(at(c, w, a, b) == o);
    assert forall|k: int| 0 <= k < 8 implies #[trigger] at(s, w, nbr_x(a, k), nbr_y(b, k)) != t by {
        let qa = nbr_x(a, k);
        let qb = nbr_y(b, k);
        lemma_nbr_of_interior(w, h, a, b, k);
        lemma_nbr_symmetric(a, b, k);
        lemma_flood_at(g, w, h, t, x, y, qa, qb);
        lemma_at_update(c, w, h, x, y, t, qa, qb);
        if at(s, w, qa, qb) == t {
            if reach(g, w, h, t, x, y, qa, qb) {
                if qa == x && qb == y {
                    assert(at(c, w, nbr_x(x, 7 - k), nbr_y(y, 7 - k)) == o);
                } else {
                    lemma_reach_clean(g, w, h, t, x, y, qa, qb);
                    assert(at(g, w, nbr_x(qa, 7 - k), nbr_y(qb, 7 - k)) == o);
                }
            } else {
                assert(at(c, w, qa, qb) == t);
            }
        }
    }
}

/// After a flood of kind `t` from `(x, y)`, a loose wall touches no wall of
/// either kind: had it touched one, the flood would have taken it over.
proof fn lemma_flood_cell_loose(c: Seq<u16>, w: int, h: int, x: int, y: int, t: u16, a: int, b: int)
    requires
        interior(w, h, x, y),
        interior(w, h, a, b),
        c.len() >= w * h,
        separated(c, w, h),
        t == wall_one() || t == wall_two(),
        at(flood(c.update(x + y * w, t), w, h, t, x, y), w, a, b) == wall_three(),
    ensures
        !has_nbr(flood(c.update(x + y * w, t), w, h, t, x, y), w, a, b, wall_one()),
        !has_nbr(flood(c.update(x + y * w, t), w, h, t, x, y), w, a, b, wall_two()),
{
    let g = c.update(x + y * w, t);
    let s = flood(g, w, h, t, x, y);
    let o = opposite(t);
    lemma_index_in_range(w, h, x, y);
    lemma_flood_at(g, w, h, t, x, y, a, b);
    lemma_at_update(c, w, h, x, y, t, a, b);
    lemma_reach_start(g, w, h, t, x, y);
    assert(kind_kept(c, w, a, b));
    assert(at(c, w, a, b) == wall_three());
    assert forall|j: int| 0 <= j < 8 implies #[trigger] at(g, w, nbr_x(a, j), nbr_y(b, j)) != o by {
        lemma_nbr_of_interior(w, h, a, b, j);
        lemma_at_update(c, w, h, x, y, t, nbr_x(a, j), nbr_y(b, j));
        if at(g, w, nbr_x(a, j), nbr_y(b, j)) == o {
            assert(at(c, w, nbr_x(a, j), nbr_y(b, j)) == o);
        }
    }
    assert(!has_nbr(g, w, a, b, o));
    assert forall|k: int| 0 <= k < 8 implies #[trigger] at(s, w, nbr_x(a, k), nbr_y(b, k)) != wall_one()
        && at(s, w, nbr_x(a, k), nbr_y(b, k)) != wall_two() by {
        let qa = nbr_x(a, k);
        let qb = nbr_y(b, k);
        lemma_nbr_of_interior(w, h, a, b, k);
        lemma_nbr_symmetric(a, b, k);
        lemma_flood_at(g, w, h, t, x, y, qa, qb);
        lemma_at_update(c, w, h, x, y, t, qa, qb);
        if at(s, w, qa, qb) == wall_one() || at(s, w, qa, qb) == wall_two() {
            if reach(g, w, h, t, x, y, qa, qb) {
                lemma_reach_step(g, w, h, t, x, y, qa, qb, 7 - k);
            } else {
                assert(at(c, w, qa, qb) == at(s, w, qa, qb));
            }
        }
    }
}

/// A flood of kind `t` from a new wall that touches no wall of the opposite
/// kind keeps the kinds apart.
proof fn lemma_flood_separated(c: Seq<u16>, w: int, h: int, x: int, y: int, t: u16)
    requires
        interior(w, h, x, y),
        c.len() >= w * h,
        separated(c, w, h),
        t == wall_one() || t == wall_two(),
        !has_nbr(c, w, x, y, opposite(t)),
    ensures
        separated(flood(c.update(x + y * w, t), w, h, t, x, y), w, h),
{
    let s = flood(c.update(x + y * w, t), w, h, t, x, y);
    assert forall|a: int, b: int| interior(w, h, a, b) implies #[trigger] kind_kept(s, w, a, b) by {
        if at(s, w, a, b) == t {
            lemma_flood_cell_own(c, w, h, x, y, t, a, b);
        } else if at(s, w, a, b) == opposite(t) {
            lemma_flood_cell_other(c, w, h, x, y, t, a, b);
        } else if at(s, w, a, b) == wall_three() {
            lemma_flood_cell_loose(c, w, h, x, y, t, a, b);
        }
    }
}

/// A wall request, granted or refused, keeps the two wall kinds apart: no
/// sequence of requests on a fresh grid joins the left and bottom borders to
/// the top and right ones.
pub proof fn lemma_placed_separated(m: GridModel, w: int, h: int, x: int, y: int)
    requires
        interior(w, h, x, y),
        m.cells.len() >= w * h,
        separated(m.cells, w, h),
    ensures
        separated(placed(m, w, h, x, y).cells, w, h),
{
    let c = m.cells;
    let ones = has_nbr(c, w, x, y, wall_one());
    let twos = has_nbr(c, w, x, y, wall_two());
    if ones && twos {
    } else if ones {
        lemma_flood_separated(c, w, h, x, y, wall_one());
    } else if twos {
        lemma_flood_separated(c, w, h, x, y, wall_two());
    } else {
        lemma_loose_separated(c, w, h, x, y);
    }
}

/// A refused wall request changes no tile.
pub proof fn lemma_refused_keeps_tiles(m: GridModel, w: int, h: int, x: int, y: int)
    requires
        !wall_allowed(m.cells, w, x, y),
    ensures
        placed(m, w, h, x, y).cells == m.cells,
{
}

/// A granted wall request leaves a wall at the requested tile.
pub proof fn lemma_granted_is_wall(m: GridModel, w: int, h: int, x: int, y: int)
    requires
        interior(w, h, x, y),
        m.cells.len() >= w * h,
        wall_allowed(m.cells, w, x, y),
    ensures
        is_wall_value(at(placed(m, w, h, x, y).cells, w, x, y)),
{
    let c = m.cells;
    let i = x + y * w;
    lemma_index_in_range(w, h, x, y);
    lemma_at_update(c, w, h, x, y, wall_one(), x, y);
    lemma_at_update(c, w, h, x, y, wall_two(), x, y);
    lemma_at_update(c, w, h, x, y, wall_three(), x, y);
    lemma_reach_start(c.update(i, wall_one()), w, h, wall_one(), x, y);
    lemma_reach_start(c.update(i, wall_two()), w, h, wall_two(), x, y);
    lemma_flood_at(c.update(i, wall_one()), w, h, wall_one(), x, y, x, y);
    lemma_flood_at(c.update(i, wall_two()), w, h, wall_two(), x, y, x, y);
}

/// Every border tile holds what it holds on a fresh grid.
pub open spec fn border_fresh(c: Seq<u16>, w: int, h: int) -> bool {
    forall|x: int, y: int|
        in_grid(w, h, x, y) && !interior(w, h, x, y) ==> #[trigger] at(c, w, x, y) == fresh_tile(w, h, x, y)
}

/// A fresh grid has fresh borders, and its start `(1, 1)` and goal
/// `(w - 2, h - 2)` are open.
pub proof fn lemma_fresh_ends(w: int, size: int)
    requires
        w >= 3,
        size / w >= 3,
    ensures
        border_fresh(fresh_grid(w, size).cells, w, size / w),
        at(fresh_grid(w, size).cells, w, 1, 1) == 0,
        at(fresh_grid(w, size).cells, w, w - 2, size / w - 2) == 0,
        fresh_grid(w, size).cells.len() >= w * (size / w),
{
    let h = size / w;
    let c = fresh_grid(w, size).cells;
    vstd::arithmetic::div_mod::lemma_fundamental_div_mod(size, w);
    assert(w * h <= size) by (nonlinear_arith)
        requires
            size == w * h + size % w,
            0 <= size % w,
    ;
    assert forall|a: int, b: int| in_grid(w, h, a, b) implies #[trigger] at(c, w, a, b) == fresh_tile(w, h, a, b) by {
        lemma_index_in_range(w, h, a, b);
        lemma_index_coords(w, h, a, b);
    }
    assert(at(c, w, 1, 1) == fresh_tile(w, h, 1, 1));
    assert(at(c, w, w - 2, h - 2) == fresh_tile(w, h, w - 2, h - 2));
}

/// On a grid with fresh borders, the start `(1, 1)` and the goal
/// `(w - 2, h - 2)` each touch a wall of both kinds, so a wall there is never
/// allowed, and a request there changes no tile.
pub proof fn lemma_ends_refused(m: GridModel, w: int, h: int)
    requires
        w >= 3,
        h >= 3,
        border_fresh(m.cells, w, h),
    ensures
        !wall_allowed(m.cells, w, 1, 1),
        !wall_allowed(m.cells, w, w - 2, h - 2),
        placed(m, w, h, 1, 1).cells == m.cells,
        placed(m, w, h, w - 2, h - 2).cells == m.cells,
{
    let c = m.cells;
    assert(at(c, w, nbr_x(1, 0), nbr_y(1, 0)) == wall_one());
    assert(at(c, w, nbr_x(1, 3), nbr_y(1, 3)) == wall_two());
    assert(at(c, w, nbr_x(w - 2, 4), nbr_y(h - 2, 4)) == wall_one());
    assert(at(c, w, nbr_x(w - 2, 6), nbr_y(h - 2, 6)) == wall_two());
}

/// A wall request anywhere leaves the borders fresh and changes no open
/// tile but the requested one: in particular the start and the goal, where a
/// wall is never allowed, stay open whatever is asked.
pub proof fn lemma_placed_keeps_ends(m: GridModel, w: int, h: int, x: int, y: int)
    requires
        w >= 3,
        h >= 3,
        interior(w, h, x, y),
        m.cells.len() >= w * h,
        border_fresh(m.cells, w, h),
    ensures
        border_fresh(placed(m, w, h, x, y).cells, w, h),
        forall|a: int, b: int|
            in_grid(w, h, a, b) && (a, b) != (x, y) && at(m.cells, w, a, b) != wall_three() ==> #[trigger] at(
                placed(m, w, h, x, y).cells,
                w,
                a,
                b,
            ) == at(m.cells, w, a, b),
        at(placed(m, w, h, 1, 1).cells, w, 1, 1) == at(m.cells, w, 1, 1),
        at(placed(m, w, h, w - 2, h - 2).cells, w, w - 2, h - 2) == at(m.cells, w, w - 2, h - 2),
        at(m.cells, w, 1, 1) != wall_three() ==> at(placed(m, w, h, x, y).cells, w, 1, 1) == at(m.cells, w, 1, 1),
        at(m.cells, w, w - 2, h - 2) != wall_three() ==> at(placed(m, w, h, x, y).cells, w, w - 2, h - 2)
            == at(m.cells, w, w - 2, h - 2),
{
    let c = m.cells;
    let i = x + y * w;
    lemma_placed_frame(m, w, h, x, y);
    lemma_ends_refused(m, w, h);
    lemma_index_in_range(w, h, x, y);
    let p = placed(m, w, h, x, y).cells;
    assert forall|a: int, b: int|
        in_grid(w, h, a, b) && (a, b) != (x, y) && at(c, w, a, b) != wall_three() implies #[trigger] at(p, w, a, b)
            == at(c, w, a, b) by {
        lemma_at_update(c, w, h, x, y, wall_one(), a, b);
        lemma_at_update(c, w, h, x, y, wall_two(), a, b);
        lemma_at_update(c, w, h, x, y, wall_three(), a, b);
        lemma_flood_at(c.update(i, wall_one()), w, h, wall_one(), x, y, a, b);
        lemma_flood_at(c.update(i, wall_two()), w, h, wall_two(), x, y, a, b);
        if reach(c.update(i, wall_one()), w, h, wall_one(), x, y, a, b) {
            lemma_reach_clean(c.update(i, wall_one()), w, h, wall_one(), x, y, a, b);
        }
        if reach(c.update(i, wall_two()), w, h, wall_two(), x, y, a, b) {
            lemma_reach_clean(c.update(i, wall_two()), w, h, wall_two(), x, y, a, b);
        }
    }
    assert(in_grid(w, h, 1, 1));
    assert(in_grid(w, h, w - 2, h - 2));
    if at(c, w, 1, 1) != wall_three() && (x, y) != (1int, 1int) {
        assert(at(p, w, 1, 1) == at(c, w, 1, 1));
    }
    if at(c, w, w - 2, h - 2) != wall_three() && (x, y) != (w - 2, h - 2) {
        assert(at(p, w, w - 2, h - 2) == at(c, w, w - 2, h - 2));
    }
}

/// A wall of either border kind at `(x, y)` touches a wall of its own kind.
pub open spec fn anchored_at(c: Seq<u16>, w: int, x: int, y: int) -> bool {
    &&& at(c, w, x, y) == wall_one() ==> has_nbr(c, w, x, y, wall_one())
    &&& at(c, w, x, y) == wall_two() ==> has_nbr(c, w, x, y, wall_two())
}

/// Inside the borders, every wall of a border kind touches a wall of its kind.
pub open spec fn anchored(c: Seq<u16>, w: int, h: int) -> bool {
    forall|x: int, y: int| interior(w, h, x, y) ==> #[trigger] anchored_at(c, w, x, y)
}

/// A tile a flood reached, other than its start, touches another reached tile.
proof fn lemma_level_back(c: Seq<u16>, w: int, h: int, t: u16, x: int, y: int, n: nat, a: int, b: int)
    requires
        level(c, w, h, t, x, y, n).contains((a, b)),
        (a, b) != (x, y),
    ensures
        exists|k: int| 0 <= k < 8 && #[trigger] reach(c, w, h, t, x, y, nbr_x(a, k), nbr_y(b, k)),
    decreases n,
{
    if n > 0 {
        let prev = level(c, w, h, t, x, y, (n - 1) as nat);
        if prev.contains((a, b)) {
            lemma_level_back(c, w, h, t, x, y, (n - 1) as nat, a, b);
        } else {
            let k = choose|k: int| 0 <= k < 8 && #[trigger] prev.contains((nbr_x(a, k), nbr_y(b, k)));
            assert(level(c, w, h, t, x, y, (n - 1) as nat).contains((nbr_x(a, k), nbr_y(b, k))));
            assert(reach(c, w, h, t, x, y, nbr_x(a, k), nbr_y(b, k)));
        }
    }
}

/// A wall request on a grid that keeps the kinds apart and whose border-kind
/// walls touch walls of their kind changes no wall of a border kind, turns no
/// wall back into an open tile, changes no open tile but the requested one,
/// and keeps every border-kind wall touching a wall of its kind.
pub proof fn lemma_placed_stable(m: GridModel, w: int, h: int, x: int, y: int)
    requires
        interior(w, h, x, y),
        m.cells.len() >= w * h,
        separated(m.cells, w, h),
        anchored(m.cells, w, h),
    ensures
        forall|a: int, b: int|
            in_grid(w, h, a, b) && (at(m.cells, w, a, b) == wall_one() || at(m.cells, w, a, b) == wall_two())
                ==> #[trigger] at(placed(m, w, h, x, y).cells, w, a, b) == at(m.cells, w, a, b),
        forall|a: int, b: int|
            in_grid(w, h, a, b) && at(m.cells, w, a, b) >= wall_three() ==> #[trigger] at(
                placed(m, w, h, x, y).cells,
                w,
                a,
                b,
            ) >= wall_three(),
        forall|a: int, b: int|
            in_grid(w, h, a, b) && (a, b) != (x, y) && at(m.cells, w, a, b) < wall_three() ==> #[trigger] at(
                placed(m, w, h, x, y).cells,
                w,
                a,
                b,
            ) == at(m.cells, w, a, b),
        anchored(placed(m, w, h, x, y).cells, w, h),
        placed(m, w, h, x, y).cells.len() == m.cells.len(),
{
    let c = m.cells;
    let i = x + y * w;
    lemma_index_in_range(w, h, x, y);
    let ones = has_nbr(c, w, x, y, wall_one());
    let twos = has_nbr(c, w, x, y, wall_two());
    let p = placed(m, w, h, x, y).cells;
    assert(kind_kept(c, w, x, y));
    assert(anchored_at(c, w, x, y));
    if ones && twos {
        assert forall|a: int, b: int| interior(w, h, a, b) implies #[trigger] anchored_at(p, w, a, b) by {
            assert(anchored_at(c, w, a, b));
        }
    } else if !ones && !twos {
        let g = c.update(i, wall_three());
        assert(p == g);
        assert forall|a: int, b: int| in_grid(w, h, a, b) implies #[trigger] at(p, w, a, b) == if a == x && b == y {
            wall_three()
        } else {
            at(c, w, a, b)
        } by {
            lemma_at_update(c, w, h, x, y, wall_three(), a, b);
        }
        assert forall|a: int, b: int| interior(w, h, a, b) implies #[trigger] anchored_at(p, w, a, b) by {
            assert(anchored_at(c, w, a, b));
            if (a, b) != (x, y) {
                if at(p, w, a, b) == wall_one() {
                    let k = choose|k: int| 0 <= k < 8 && #[trigger] at(c, w, nbr_x(a, k), nbr_y(b, k)) == wall_one();
                    lemma_nbr_of_interior(w, h, a, b, k);
                    assert(at(p, w, nbr_x(a, k), nbr_y(b, k)) == wall_one());
                }
                if at(p, w, a, b) == wall_two() {
                    let k = choose|k: int| 0 <= k < 8 && #[trigger] at(c, w, nbr_x(a, k), nbr_y(b, k)) == wall_two();
                    lemma_nbr_of_interior(w, h, a, b, k);
                    assert(at(p, w, nbr_x(a, k), nbr_y(b, k)) == wall_two());
                }
            }
        }
    } else {
        let t = if ones { wall_one() } else { wall_two() };
        let g = c.update(i, t);
        assert(p == flood(g, w, h, t, x, y));
        lemma_reach_start(g, w, h, t, x, y);
        assert forall|a: int, b: int| in_grid(w, h, a, b) implies #[trigger] at(p, w, a, b) == if reach(
            g,
            w,
            h,
            t,
            x,
            y,
            a,
            b,
        ) {
            t
        } else {
            at(c, w, a, b)
        } && (reach(g, w, h, t, x, y, a, b) && (a, b) != (x, y) ==> at(c, w, a, b) == wall_three()) by {
            lemma_flood_at(g, w, h, t, x, y, a, b);
            lemma_at_update(c, w, h, x, y, t, a, b);
            if reach(g, w, h, t, x, y, a, b) && (a, b) != (x, y) {
                lemma_reach_clean(g, w, h, t, x, y, a, b);
            }
        }
        // a request on a wall of a border kind keeps its kind
        if at(c, w, x, y) == wall_one() {
            assert(t == wall_one());
        }
        if at(c, w, x, y) == wall_two() {
            assert(t == wall_two());
        }
        assert forall|a: int, b: int| interior(w, h, a, b) implies #[trigger] anchored_at(p, w, a, b) by {
            assert(anchored_at(c, w, a, b));
            if reach(g, w, h, t, x, y, a, b) {
                if (a, b) == (x, y) {
                    let k = choose|k: int| 0 <= k < 8 && #[trigger] at(c, w, nbr_x(x, k), nbr_y(y, k)) == t;
                    lemma_nbr_of_interior(w, h, x, y, k);
                    lemma_nbr_symmetric(x, y, k);
                    assert(at(p, w, nbr_x(x, k), nbr_y(y, k)) == t);
                } else {
                    let n = choose|n: nat| #[trigger] level(g, w, h, t, x, y, n).contains((a, b));
                    lemma_level_back(g, w, h, t, x, y, n, a, b);
                    let k = choose|k: int| 0 <= k < 8 && #[trigger] reach(g, w, h, t, x, y, nbr_x(a, k), nbr_y(b, k));
                    lemma_nbr_of_interior(w, h, a, b, k);
                    assert(at(p, w, nbr_x(a, k), nbr_y(b, k)) == t);
                }
            } else {
                if at(p, w, a, b) == wall_one() {
                    let k = choose|k: int| 0 <= k < 8 && #[trigger] at(c, w, nbr_x(a, k), nbr_y(b, k)) == wall_one();
                    lemma_nbr_of_interior(w, h, a, b, k);
                    assert(at(p, w, nbr_x(a, k), nbr_y(b, k)) == wall_one());
                }
                if at(p, w, a, b) == wall_two() {
                    let k = choose|k: int| 0 <= k < 8 && #[trigger] at(c, w, nbr_x(a, k), nbr_y(b, k)) == wall_two();
                    lemma_nbr_of_interior(w, h, a, b, k);
                    assert(at(p, w, nbr_x(a, k), nbr_y(b, k)) == wall_two());
                }
            }
        }
    }
}

} // verus!
