use vstd::prelude::*;
use crate::bug::grid_spec::{border_walled, at, clean, count_loose, flood, in_grid, interior, level, nbr_x, nbr_y, reach, wall_three, wall_one, wall_two, opposite, has_nbr, placed, GridModel, lemma_at_update, lemma_nbr_of_interior, lemma_index_in_range, lemma_index_coords, lemma_index_split, lemma_nbr_symmetric};

verus! {

pub proof fn lemma_level_mono(c: Seq<u16>, w: int, h: int, t: u16, x: int, y: int, n: nat, m: nat)
    requires
        n <= m,
    ensures
        level(c, w, h, t, x, y, n).subset_of(level(c, w, h, t, x, y, m)),
    decreases m - n,
{
    if n < m {
        lemma_level_mono(c, w, h, t, x, y, n, (m - 1) as nat);
    }
}

/// Every tile a flood reaches, but its start, is a clean wall.
pub proof fn lemma_level_clean(c: Seq<u16>, w: int, h: int, t: u16, x: int, y: int, n: nat, a: int, b: int)
    requires
        level(c, w, h, t, x, y, n).contains((a, b)),
        (a, b) != (x, y),
    ensures
        clean(c, w, h, t, a, b),
    decreases n,
{
    if n > 0 {
        let prev = level(c, w, h, t, x, y, (n - 1) as nat);
        if prev.contains((a, b)) {
            lemma_level_clean(c, w, h, t, x, y, (n - 1) as nat, a, b);
        }
    }
}

pub proof fn lemma_reach_clean(c: Seq<u16>, w: int, h: int, t: u16, x: int, y: int, a: int, b: int)
    requires
        reach(c, w, h, t, x, y, a, b),
        (a, b) != (x, y),
    ensures
        clean(c, w, h, t, a, b),
{
    let n = choose|n: nat| #[trigger] level(c, w, h, t, x, y, n).contains((a, b));
    lemma_level_clean(c, w, h, t, x, y, n, a, b);
}

pub proof fn lemma_reach_start(c: Seq<u16>, w: int, h: int, t: u16, x: int, y: int)
    ensures
        reach(c, w, h, t, x, y, x, y),
{
    assert(level(c, w, h, t, x, y, 0).contains((x, y)));
}

/// A clean neighbour of a reached tile is reached.
pub proof fn lemma_reach_step(c: Seq<u16>, w: int, h: int, t: u16, x: int, y: int, a: int, b: int, k: int)
    requires
        reach(c, w, h, t, x, y, a, b),
        0 <= k < 8,
        clean(c, w, h, t, nbr_x(a, k), nbr_y(b, k)),
    ensures
        reach(c, w, h, t, x, y, nbr_x(a, k), nbr_y(b, k)),
{
    let n = choose|n: nat| #[trigger] level(c, w, h, t, x, y, n).contains((a, b));
    let p = (nbr_x(a, k), nbr_y(b, k));
    lemma_nbr_symmetric(a, b, k);
    let prev = level(c, w, h, t, x, y, n);
    assert(prev.contains((nbr_x(p.0, 7 - k), nbr_y(p.1, 7 - k))));
    assert(level(c, w, h, t, x, y, n + 1).contains(p));
}

/// A flood started at a reached tile `s`, over a grid whose clean walls are clean
/// in `c2` too, reaches nothing the flood over `c2` does not.
pub proof fn lemma_level_transfer(
    c1: Seq<u16>,
    c2: Seq<u16>,
    w: int,
    h: int,
    t: u16,
    x: int,
    y: int,
    sx: int,
    sy: int,
    m: nat,
    n: nat,
)
    requires
        level(c2, w, h, t, x, y, m).contains((sx, sy)),
        forall|a: int, b: int| clean(c1, w, h, t, a, b) ==> clean(c2, w, h, t, a, b),
    ensures
        level(c1, w, h, t, sx, sy, n).subset_of(level(c2, w, h, t, x, y, m + n)),
    decreases n,
{
    if n > 0 {
        lemma_level_transfer(c1, c2, w, h, t, x, y, sx, sy, m, (n - 1) as nat);
        let prev1 = level(c1, w, h, t, sx, sy, (n - 1) as nat);
        let prev2 = level(c2, w, h, t, x, y, (m + n - 1) as nat);
        assert forall|p: (int, int)| level(c1, w, h, t, sx, sy, n).contains(p) implies level(
            c2,
            w,
            h,
            t,
            x,
            y,
            m + n,
        ).contains(p) by {
            lemma_level_mono(c2, w, h, t, x, y, (m + n - 1) as nat, m + n);
            if !prev1.contains(p) {
                let k = choose|k: int|
                    0 <= k < 8 && #[trigger] prev1.contains((nbr_x(p.0, k), nbr_y(p.1, k)));
                assert(prev2.contains((nbr_x(p.0, k), nbr_y(p.1, k))));
            }
        }
    } else {
        lemma_level_mono(c2, w, h, t, x, y, m, m + n);
    }
}

pub proof fn lemma_reach_transfer(
    c1: Seq<u16>,
    c2: Seq<u16>,
    w: int,
    h: int,
    t: u16,
    x: int,
    y: int,
    sx: int,
    sy: int,
    a: int,
    b: int,
)
    requires
        reach(c2, w, h, t, x, y, sx, sy),
        reach(c1, w, h, t, sx, sy, a, b),
        forall|a: int, b: int| clean(c1, w, h, t, a, b) ==> clean(c2, w, h, t, a, b),
    ensures
        reach(c2, w, h, t, x, y, a, b),
{
    let m = choose|m: nat| #[trigger] level(c2, w, h, t, x, y, m).contains((sx, sy));
    let n = choose|n: nat| #[trigger] level(c1, w, h, t, sx, sy, n).contains((a, b));
    lemma_level_transfer(c1, c2, w, h, t, x, y, sx, sy, m, n);
    assert(level(c2, w, h, t, x, y, m + n).contains((a, b)));
}

/// The tiles of a flood's result, read by coordinates.
pub proof fn lemma_flood_at(c: Seq<u16>, w: int, h: int, t: u16, x: int, y: int, a: int, b: int)
    requires
        in_grid(w, h, a, b),
        c.len() >= w * h,
    ensures
        at(flood(c, w, h, t, x, y), w, a, b) == if reach(c, w, h, t, x, y, a, b) {
            t
        } else {
            at(c, w, a, b)
        },
{
    lemma_index_in_range(w, h, a, b);
    lemma_index_coords(w, h, a, b);
}

/// Two grids of one length agree when they agree on every tile of the grid and
/// on the cells past its last row.
pub proof fn lemma_grid_ext(c1: Seq<u16>, c2: Seq<u16>, w: int, h: int)
    requires
        0 < w,
        c1.len() == c2.len(),
        c1.len() >= w * h,
        forall|a: int, b: int| in_grid(w, h, a, b) ==> at(c1, w, a, b) == at(c2, w, a, b),
        forall|i: int| w * h <= i < c1.len() ==> c1[i] == c2[i],
    ensures
        c1 == c2,
{
    assert forall|i: int| 0 <= i < c1.len() implies c1[i] == c2[i] by {
        if i < w * h {
            lemma_index_split(w, h, i);
            assert(at(c1, w, i % w, i / w) == at(c2, w, i % w, i / w));
        }
    }
    assert(c1 =~= c2);
}

// ---------------------------------------------------------------------------
// A flood in progress
/// Every tile on which `s` differs from the base grid `g` holds `t` and is
/// reached by the flood of kind `t` from `(x, y)` over `g`.
pub open spec fn changes_ok(s: Seq<u16>, g: Seq<u16>, w: int, h: int, t: u16, x: int, y: int) -> bool {
    forall|a: int, b: int|
        in_grid(w, h, a, b) && #[trigger] at(s, w, a, b) != at(g, w, a, b) ==> at(s, w, a, b) == t
            && reach(g, w, h, t, x, y, a, b)
}

/// Every clean neighbour (in `g`) of `(a, b)` holds `t` in `s`.
pub open spec fn closed_at(s: Seq<u16>, g: Seq<u16>, w: int, h: int, t: u16, a: int, b: int) -> bool {
    forall|k: int|
        0 <= k < 8 && #[trigger] clean(g, w, h, t, nbr_x(a, k), nbr_y(b, k)) ==> at(
            s,
            w,
            nbr_x(a, k),
            nbr_y(b, k),
        ) == t
}

/// Every tile taken over so far has all its clean neighbours taken over.
pub open spec fn closure_ok(s: Seq<u16>, g: Seq<u16>, w: int, h: int, t: u16) -> bool {
    forall|a: int, b: int|
        in_grid(w, h, a, b) && #[trigger] at(s, w, a, b) == t && at(g, w, a, b) != t ==> closed_at(
            s,
            g,
            w,
            h,
            t,
            a,
            b,
        )
}

/// The cells past the last row are untouched.
pub open spec fn tail_same(s: Seq<u16>, g: Seq<u16>, w: int, h: int) -> bool {
    &&& s.len() == g.len()
    &&& forall|i: int| w * h <= i < s.len() ==> s[i] == g[i]
}

pub open spec fn flood_kind(t: u16) -> bool {
    t == wall_one() || t == wall_two()
}

proof fn lemma_level_all_t(s: Seq<u16>, g: Seq<u16>, w: int, h: int, t: u16, x: int, y: int, n: nat)
    requires
        interior(w, h, x, y),
        flood_kind(t),
        at(s, w, x, y) == t,
        closure_ok(s, g, w, h, t),
        closed_at(s, g, w, h, t, x, y),
    ensures
        forall|a: int, b: int| #[trigger] level(g, w, h, t, x, y, n).contains((a, b)) ==> at(s, w, a, b) == t,
    decreases n,
{
    if n > 0 {
        lemma_level_all_t(s, g, w, h, t, x, y, (n - 1) as nat);
        let prev = level(g, w, h, t, x, y, (n - 1) as nat);
        assert forall|a: int, b: int| #[trigger] level(g, w, h, t, x, y, n).contains((a, b)) implies at(s, w, a, b) == t by {
            if !prev.contains((a, b)) {
                let k = choose|k: int| 0 <= k < 8 && #[trigger] prev.contains((nbr_x(a, k), nbr_y(b, k)));
                let qx = nbr_x(a, k);
                let qy = nbr_y(b, k);
                lemma_nbr_symmetric(a, b, k);
                assert(at(s, w, qx, qy) == t);
                assert(clean(g, w, h, t, a, b));
                assert(clean(g, w, h, t, nbr_x(qx, 7 - k), nbr_y(qy, 7 - k)));
                if qx == x && qy == y {
                } else {
                    lemma_level_clean(g, w, h, t, x, y, (n - 1) as nat, qx, qy);
                    assert(closed_at(s, g, w, h, t, qx, qy));
                }
            }
        }
    }
}

/// A finished flood: every change is a reached tile, and the tiles taken over,
/// with the start, are closed; then the grid is the flood's result.
pub proof fn lemma_flood_complete(s: Seq<u16>, g: Seq<u16>, w: int, h: int, t: u16, x: int, y: int)
    requires
        interior(w, h, x, y),
        g.len() >= w * h,
        flood_kind(t),
        at(g, w, x, y) == t,
        changes_ok(s, g, w, h, t, x, y),
        closure_ok(s, g, w, h, t),
        closed_at(s, g, w, h, t, x, y),
        tail_same(s, g, w, h),
    ensures
        s == flood(g, w, h, t, x, y),
{
    let f = flood(g, w, h, t, x, y);
    assert(at(s, w, x, y) == t);
    assert forall|a: int, b: int| in_grid(w, h, a, b) implies at(s, w, a, b) == at(f, w, a, b) by {
        lemma_flood_at(g, w, h, t, x, y, a, b);
        if reach(g, w, h, t, x, y, a, b) {
            let n = choose|n: nat| #[trigger] level(g, w, h, t, x, y, n).contains((a, b));
            lemma_level_all_t(s, g, w, h, t, x, y, n);
        }
    }
    lemma_grid_ext(s, f, w, h);
}

/// One call of the flood on a loose neighbour `(cx, cy)` of the start keeps the
/// flood's invariants.
pub proof fn lemma_cascade_step(
    e: Seq<u16>,
    s2: Seq<u16>,
    g: Seq<u16>,
    w: int,
    h: int,
    t: u16,
    x: int,
    y: int,
    cx: int,
    cy: int,
    k0: int,
    walls: u16,
)
    requires
        interior(w, h, x, y),
        g.len() >= w * h,
        flood_kind(t),
        at(g, w, x, y) == t,
        0 <= k0 < 8,
        cx == nbr_x(x, k0),
        cy == nbr_y(y, k0),
        interior(w, h, cx, cy),
        at(g, w, cx, cy) == wall_three(),
        changes_ok(e, g, w, h, t, x, y),
        closure_ok(e, g, w, h, t),
        tail_same(e, g, w, h),
        s2 == placed(GridModel { cells: e, walls }, w, h, cx, cy).cells,
    ensures
        changes_ok(s2, g, w, h, t, x, y),
        closure_ok(s2, g, w, h, t),
        tail_same(s2, g, w, h),
        forall|a: int, b: int| in_grid(w, h, a, b) && at(e, w, a, b) == t ==> #[trigger] at(s2, w, a, b) == t,
        clean(g, w, h, t, cx, cy) ==> at(s2, w, cx, cy) == t,
{
    let opp = opposite(t);
    lemma_nbr_symmetric(x, y, k0);
    lemma_index_in_range(w, h, cx, cy);
    // the start holds t, so the callee sees a neighbour of kind t
    assert(at(e, w, x, y) == t);
    assert(at(e, w, nbr_x(cx, 7 - k0), nbr_y(cy, 7 - k0)) == t);
    assert(has_nbr(e, w, cx, cy, t));
    // walls of the opposite kind are the same in e and g
    assert forall|a: int, b: int| in_grid(w, h, a, b) implies (#[trigger] at(e, w, a, b) == opp <==> at(g, w, a, b) == opp) by {
        if at(e, w, a, b) != at(g, w, a, b) {
            assert(at(e, w, a, b) == t);
            if (a, b) != (x, y) {
                lemma_reach_clean(g, w, h, t, x, y, a, b);
            }
        }
    }
    if has_nbr(e, w, cx, cy, opp) {
        assert(s2 == e);
        assert forall|a: int, b: int| in_grid(w, h, a, b) && at(e, w, a, b) == t implies #[trigger] at(s2, w, a, b) == t by {}
        if clean(g, w, h, t, cx, cy) {
            let k = choose|k: int| 0 <= k < 8 && #[trigger] at(e, w, nbr_x(cx, k), nbr_y(cy, k)) == opp;
            lemma_nbr_of_interior(w, h, cx, cy, k);
            assert(at(g, w, nbr_x(cx, k), nbr_y(cy, k)) == opp);
        }
    } else {
        let ci = cx + cy * w;
        let bc = e.update(ci, t);
        assert(s2 == flood(bc, w, h, t, cx, cy));
        // opposite walls are the same in bc and g
        assert forall|a: int, b: int| in_grid(w, h, a, b) implies (#[trigger] at(bc, w, a, b) == opp <==> at(g, w, a, b) == opp) by {
            lemma_at_update(e, w, h, cx, cy, t, a, b);
        }
        // the clean walls of bc are clean in g
        assert forall|a: int, b: int| clean(bc, w, h, t, a, b) implies clean(g, w, h, t, a, b) by {
            lemma_at_update(e, w, h, cx, cy, t, a, b);
            if has_nbr(g, w, a, b, opp) {
                let k = choose|k: int| 0 <= k < 8 && #[trigger] at(g, w, nbr_x(a, k), nbr_y(b, k)) == opp;
                lemma_nbr_of_interior(w, h, a, b, k);
                assert(at(bc, w, nbr_x(a, k), nbr_y(b, k)) == opp);
            }
        }
        // the clean walls of g that are still loose in e are clean in bc
        assert forall|a: int, b: int| clean(g, w, h, t, a, b) && at(e, w, a, b) == wall_three() && (a, b) != (cx, cy) implies clean(bc, w, h, t, a, b) by {
            lemma_at_update(e, w, h, cx, cy, t, a, b);
            if has_nbr(bc, w, a, b, opp) {
                let k = choose|k: int| 0 <= k < 8 && #[trigger] at(bc, w, nbr_x(a, k), nbr_y(b, k)) == opp;
                lemma_nbr_of_interior(w, h, a, b, k);
                assert(at(g, w, nbr_x(a, k), nbr_y(b, k)) == opp);
            }
        }
        // the callee's tile is reached by the flood over g
        lemma_reach_start(bc, w, h, t, cx, cy);
        if at(e, w, cx, cy) == wall_three() {
            assert(!has_nbr(g, w, cx, cy, opp)) by {
                if has_nbr(g, w, cx, cy, opp) {
                    let k = choose|k: int| 0 <= k < 8 && #[trigger] at(g, w, nbr_x(cx, k), nbr_y(cy, k)) == opp;
                    lemma_nbr_of_interior(w, h, cx, cy, k);
                    assert(at(e, w, nbr_x(cx, k), nbr_y(cy, k)) == opp);
                }
            }
            assert(clean(g, w, h, t, cx, cy));
            lemma_reach_start(g, w, h, t, x, y);
            lemma_nbr_symmetric(x, y, k0);
            lemma_reach_step(g, w, h, t, x, y, x, y, k0);
        }
        assert(reach(g, w, h, t, x, y, cx, cy));
        assert forall|a: int, b: int| in_grid(w, h, a, b) implies #[trigger] at(s2, w, a, b) == if reach(bc, w, h, t, cx, cy, a, b) {
            t
        } else {
            at(bc, w, a, b)
        } by {
            lemma_flood_at(bc, w, h, t, cx, cy, a, b);
        }
        // changes
        assert forall|a: int, b: int| in_grid(w, h, a, b) && #[trigger] at(s2, w, a, b) != at(g, w, a, b) implies at(s2, w, a, b) == t
            && reach(g, w, h, t, x, y, a, b) by {
            lemma_at_update(e, w, h, cx, cy, t, a, b);
            if reach(bc, w, h, t, cx, cy, a, b) {
                lemma_reach_transfer(bc, g, w, h, t, x, y, cx, cy, a, b);
            }
        }
        // monotone
        assert forall|a: int, b: int| in_grid(w, h, a, b) && at(e, w, a, b) == t implies #[trigger] at(s2, w, a, b) == t by {
            lemma_at_update(e, w, h, cx, cy, t, a, b);
        }
        // closure
        assert forall|a: int, b: int| in_grid(w, h, a, b) && #[trigger] at(s2, w, a, b) == t && at(g, w, a, b) != t implies closed_at(s2, g, w, h, t, a, b) by {
            lemma_at_update(e, w, h, cx, cy, t, a, b);
            if at(e, w, a, b) == t {
                assert(closed_at(e, g, w, h, t, a, b));
                assert forall|k: int| 0 <= k < 8 && #[trigger] clean(g, w, h, t, nbr_x(a, k), nbr_y(b, k)) implies at(s2, w, nbr_x(a, k), nbr_y(b, k)) == t by {
                    assert(at(e, w, nbr_x(a, k), nbr_y(b, k)) == t);
                }
            } else {
                assert(reach(bc, w, h, t, cx, cy, a, b));
                assert forall|k: int| 0 <= k < 8 && #[trigger] clean(g, w, h, t, nbr_x(a, k), nbr_y(b, k)) implies at(s2, w, nbr_x(a, k), nbr_y(b, k)) == t by {
                    let px = nbr_x(a, k);
                    let py = nbr_y(b, k);
                    assert(in_grid(w, h, px, py));
                    lemma_at_update(e, w, h, cx, cy, t, px, py);
                    if at(e, w, px, py) != t && (px, py) != (cx, cy) {
                        assert(at(e, w, px, py) == wall_three());
                        assert(clean(bc, w, h, t, px, py));
                        lemma_reach_step(bc, w, h, t, cx, cy, a, b, k);
                    }
                }
            }
        }
        // the cells past the last row
        assert forall|i: int| w * h <= i < s2.len() implies s2[i] == g[i] by {
        }
        if clean(g, w, h, t, cx, cy) {
        }
    }
}

// ---------------------------------------------------------------------------
// Counting loose walls
pub proof fn lemma_count_le(a: Seq<u16>, b: Seq<u16>)
    requires
        a.len() == b.len(),
        forall|i: int| 0 <= i < a.len() && a[i] == wall_three() ==> b[i] == wall_three(),
    ensures
        count_loose(a) <= count_loose(b),
    decreases a.len(),
{
    if a.len() > 0 {
        lemma_count_le(a.drop_last(), b.drop_last());
    }
}

pub proof fn lemma_count_lt(a: Seq<u16>, b: Seq<u16>, j: int)
    requires
        a.len() == b.len(),
        forall|i: int| 0 <= i < a.len() && a[i] == wall_three() ==> b[i] == wall_three(),
        0 <= j < a.len(),
        b[j] == wall_three(),
        a[j] != wall_three(),
    ensures
        count_loose(a) < count_loose(b),
    decreases a.len(),
{
    if j == a.len() - 1 {
        lemma_count_le(a.drop_last(), b.drop_last());
    } else {
        lemma_count_lt(a.drop_last(), b.drop_last(), j);
    }
}


/// The loose walls of a grid in mid-flood are loose in the base grid.
pub proof fn lemma_loose_subset(e: Seq<u16>, g: Seq<u16>, w: int, h: int, t: u16, x: int, y: int)
    requires
        0 < w,
        g.len() >= w * h,
        flood_kind(t),
        changes_ok(e, g, w, h, t, x, y),
        tail_same(e, g, w, h),
    ensures
        forall|i: int| 0 <= i < e.len() && e[i] == wall_three() ==> g[i] == wall_three(),
{
    assert forall|i: int| 0 <= i < e.len() && e[i] == wall_three() implies g[i] == wall_three() by {
        if i < w * h {
            lemma_index_split(w, h, i);
            assert(at(e, w, i % w, i / w) == wall_three());
        }
    }
}

/// The flood's recursive call on a loose neighbour `c` of the start `(x, y)`
/// runs on a smaller measure than the call that started it.
pub proof fn lemma_cascade_measure(
    old_cells: Seq<u16>,
    e: Seq<u16>,
    w: int,
    h: int,
    t: u16,
    x: int,
    y: int,
    cx: int,
    cy: int,
)
    requires
        0 < w,
        interior(w, h, x, y),
        in_grid(w, h, cx, cy),
        (cx, cy) != (x, y),
        old_cells.len() >= w * h,
        flood_kind(t),
        at(old_cells, w, cx, cy) == wall_three(),
        changes_ok(e, old_cells.update(x + y * w, t), w, h, t, x, y),
        tail_same(e, old_cells.update(x + y * w, t), w, h),
    ensures
        2 * count_loose(e) + (if at(e, w, cx, cy) == wall_three() { 0int } else { 1int }) < 2
            * count_loose(old_cells) + (if at(old_cells, w, x, y) == wall_three() {
            0int
        } else {
            1int
        }),
{
    let xi = x + y * w;
    let ci = cx + cy * w;
    let g = old_cells.update(xi, t);
    lemma_index_in_range(w, h, x, y);
    lemma_index_in_range(w, h, cx, cy);
    lemma_at_update(old_cells, w, h, x, y, t, cx, cy);
    lemma_loose_subset(e, g, w, h, t, x, y);
    lemma_count_le(e, g);
    assert forall|i: int| 0 <= i < g.len() && g[i] == wall_three() implies old_cells[i] == wall_three() by {}
    lemma_count_le(g, old_cells);
    if at(old_cells, w, x, y) == wall_three() {
        lemma_count_lt(g, old_cells, xi);
    } else if at(e, w, cx, cy) != wall_three() {
        lemma_count_lt(e, g, ci);
    }
}


/// A wall request changes no border tile and no cell past the last row.
pub proof fn lemma_placed_frame(m: GridModel, w: int, h: int, x: int, y: int)
    requires
        0 < w,
        interior(w, h, x, y),
        m.cells.len() >= w * h,
    ensures
        placed(m, w, h, x, y).cells.len() == m.cells.len(),
        forall|a: int, b: int|
            in_grid(w, h, a, b) && !interior(w, h, a, b) ==> #[trigger] at(placed(m, w, h, x, y).cells, w, a, b)
                == at(m.cells, w, a, b),
        forall|i: int| w * h <= i < m.cells.len() ==> #[trigger] placed(m, w, h, x, y).cells[i] == m.cells[i],
{
    let xi = x + y * w;
    lemma_index_in_range(w, h, x, y);
    assert forall|a: int, b: int| in_grid(w, h, a, b) && !interior(w, h, a, b) implies #[trigger] at(placed(m, w, h, x, y).cells, w, a, b)
        == at(m.cells, w, a, b) by {
        lemma_at_update(m.cells, w, h, x, y, wall_one(), a, b);
        lemma_at_update(m.cells, w, h, x, y, wall_two(), a, b);
        lemma_at_update(m.cells, w, h, x, y, wall_three(), a, b);
        lemma_flood_at(m.cells.update(xi, wall_one()), w, h, wall_one(), x, y, a, b);
        lemma_flood_at(m.cells.update(xi, wall_two()), w, h, wall_two(), x, y, a, b);
        if reach(m.cells.update(xi, wall_one()), w, h, wall_one(), x, y, a, b) {
            lemma_reach_clean(m.cells.update(xi, wall_one()), w, h, wall_one(), x, y, a, b);
        }
        if reach(m.cells.update(xi, wall_two()), w, h, wall_two(), x, y, a, b) {
            lemma_reach_clean(m.cells.update(xi, wall_two()), w, h, wall_two(), x, y, a, b);
        }
    }
}

/// A wall request keeps the borders walled.
pub proof fn lemma_placed_border(m: GridModel, w: int, h: int, x: int, y: int)
    requires
        0 < w,
        interior(w, h, x, y),
        m.cells.len() >= w * h,
        border_walled(m.cells, w, h),
    ensures
        border_walled(placed(m, w, h, x, y).cells, w, h),
        placed(m, w, h, x, y).cells.len() == m.cells.len(),
{
    lemma_placed_frame(m, w, h, x, y);
}

/// A wall request changes no tile of the grid but the requested one and loose
/// walls.
pub proof fn lemma_placed_keeps_open(m: GridModel, w: int, h: int, x: int, y: int, a: int, b: int)
    requires
        interior(w, h, x, y),
        in_grid(w, h, a, b),
        (a, b) != (x, y),
        at(m.cells, w, a, b) != wall_three(),
        m.cells.len() >= w * h,
    ensures
        at(placed(m, w, h, x, y).cells, w, a, b) == at(m.cells, w, a, b),
        placed(m, w, h, x, y).cells.len() == m.cells.len(),
{
    let c = m.cells;
    let i = x + y * w;
    lemma_index_in_range(w, h, x, y);
    lemma_at_update(c, w, h, x, y, wall_one(), a, b);
    lemma_at_update(c, w, h, x, y, wall_two(), a, b);
    lemma_at_update(c, w, h, x, y, wall_three(), a, b);
    lemma_flood_at(c.update(i, wall_one()), w, h, wall_one(), x, y, a, b);
    lemma_flood_at(c.update(i, wall_two()), w, h, wall_two(), x, y, a, b);
    if reach(c.update(i, wall_one()), w, h, wall_one(), x, y, a, b) {
        lemma_reach_clean(c.update(i, wall_one()), w, h, wall_one(), x, y, a, b);
    }
    if reach(c.update(i, wall_two()), w, h, wall_two(), x, y, a, b) {
        lemma_reach_clean(c.update(i, wall_two()), w, h, wall_two(), x, y, a, b);
    }
}

} // verus!
