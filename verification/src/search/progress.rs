use vstd::prelude::*;
use crate::bug::bitbug::{BugModel, Direction, can_step, chosen_dir, stepped};
use crate::bug::grid_spec::{
    GridModel, at, flood, has_nbr, interior, placed, reach, wall_allowed, wall_one, wall_three,
    wall_two, lemma_index_in_range, lemma_index_split,
};
use crate::bug::flood_lemmas::lemma_reach_clean;
use crate::search::search::{at_goal, branch_blocked, playable, walk, lemma_step_keeps_playable};

verus! {

/// The number of open tiles (neither visited too often nor walled).
pub open spec fn count_open(c: Seq<u16>) -> nat
    decreases c.len(),
{
    if c.len() == 0 {
        0
    } else {
        count_open(c.drop_last()) + if c.last() < wall_three() {
            1nat
        } else {
            0nat
        }
    }
}

/// The number of tiles never visited.
pub open spec fn count_zero(c: Seq<u16>) -> nat
    decreases c.len(),
{
    if c.len() == 0 {
        0
    } else {
        count_zero(c.drop_last()) + if c.last() == 0 {
            1nat
        } else {
            0nat
        }
    }
}

/// The tiles never visited, besides the bug's own.
pub open spec fn spare_zeros(m: BugModel, w: int) -> int {
    count_zero(m.grid.cells) - if at(m.grid.cells, w, m.pos.0 as int, m.pos.1 as int) == 0 {
        1int
    } else {
        0int
    }
}

/// `base` to the power `e`.
pub open spec fn weight(base: nat, e: nat) -> nat
    decreases e,
{
    if e == 0 {
        1
    } else {
        base * weight(base, (e - 1) as nat)
    }
}

/// The work left in a stack of games: each game weighs `base` to the power of
/// its open tiles.
pub open spec fn stack_weight(s: Seq<BugModel>, base: nat) -> nat
    decreases s.len(),
{
    if s.len() == 0 {
        0
    } else {
        stack_weight(s.drop_last(), base) + weight(base, count_open(s.last().grid.cells))
    }
}

proof fn lemma_count_open_update(c: Seq<u16>, i: int, v: u16)
    requires
        0 <= i < c.len(),
    ensures
        count_open(c.update(i, v)) + (if c[i] < wall_three() { 1int } else { 0int }) == count_open(c) + (
        if v < wall_three() {
            1int
        } else {
            0int
        }),
    decreases c.len(),
{
    let u = c.update(i, v);
    if i == c.len() - 1 {
        assert(u.drop_last() =~= c.drop_last());
    } else {
        assert(u.drop_last() =~= c.drop_last().update(i, v));
        lemma_count_open_update(c.drop_last(), i, v);
    }
}

proof fn lemma_count_zero_update(c: Seq<u16>, i: int, v: u16)
    requires
        0 <= i < c.len(),
    ensures
        count_zero(c.update(i, v)) + (if c[i] == 0 { 1int } else { 0int }) == count_zero(c) + (if v == 0 {
            1int
        } else {
            0int
        }),
    decreases c.len(),
{
    let u = c.update(i, v);
    if i == c.len() - 1 {
        assert(u.drop_last() =~= c.drop_last());
    } else {
        assert(u.drop_last() =~= c.drop_last().update(i, v));
        lemma_count_zero_update(c.drop_last(), i, v);
    }
}

proof fn lemma_count_open_same(a: Seq<u16>, b: Seq<u16>)
    requires
        a.len() == b.len(),
        forall|j: int| 0 <= j < a.len() ==> (a[j] < wall_three() <==> b[j] < wall_three()),
    ensures
        count_open(a) == count_open(b),
    decreases a.len(),
{
    if a.len() > 0 {
        lemma_count_open_same(a.drop_last(), b.drop_last());
    }
}

proof fn lemma_zero_le_open(c: Seq<u16>)
    ensures
        count_zero(c) <= count_open(c),
        count_open(c) <= c.len(),
    decreases c.len(),
{
    if c.len() > 0 {
        lemma_zero_le_open(c.drop_last());
    }
}

proof fn lemma_zero_found(c: Seq<u16>, i: int)
    requires
        0 <= i < c.len(),
        c[i] == 0,
    ensures
        count_zero(c) >= 1,
    decreases c.len(),
{
    if i < c.len() - 1 {
        lemma_zero_found(c.drop_last(), i);
    }
}

/// A granted wall on an open tile closes exactly that tile.
pub proof fn lemma_placed_closes_one(g: GridModel, w: int, h: int, x: int, y: int)
    requires
        0 < w,
        interior(w, h, x, y),
        g.cells.len() >= w * h,
        at(g.cells, w, x, y) < wall_three(),
        wall_allowed(g.cells, w, x, y),
    ensures
        count_open(placed(g, w, h, x, y).cells) + 1 == count_open(g.cells),
{
    let i = x + y * w;
    lemma_index_in_range(w, h, x, y);
    let c = g.cells;
    let p = placed(g, w, h, x, y).cells;
    let ones = has_nbr(c, w, x, y, wall_one());
    let twos = has_nbr(c, w, x, y, wall_two());
    if !ones && !twos {
        lemma_count_open_update(c, i, wall_three());
    } else {
        let kind = if ones { wall_one() } else { wall_two() };
        assert(p == flood(c.update(i, kind), w, h, kind, x, y));
        let b = c.update(i, kind);
        lemma_count_open_update(c, i, kind);
        assert forall|j: int| 0 <= j < p.len() implies (p[j] < wall_three() <==> b[j] < wall_three()) by {
            if j < w * h {
                lemma_index_split(w, h, j);
                let a = j % w;
                let bb = j / w;
                if reach(b, w, h, kind, x, y, a, bb) {
                    if (a, bb) != (x, y) {
                        lemma_reach_clean(b, w, h, kind, x, y, a, bb);
                    }
                }
            }
        }
        lemma_count_open_same(p, b);
    }
}

/// A step moves the bug off its tile, onto another cell of the grid's storage.
proof fn lemma_step_moves(m: BugModel, w: int, size: int)
    requires
        can_step(m, w, size),
        w >= 1,
        m.grid.cells.len() == size,
        size <= usize::MAX,
    ensures
        ({
            let i = m.pos.0 + m.pos.1 * w;
            let m1 = stepped(m, w);
            let i1 = m1.pos.0 + m1.pos.1 * w;
            &&& 0 <= i1 < size
            &&& i1 != i
        }),
{
    let y = m.pos.1 as int;
    assert((y - 1) * w == y * w - w && (y + 1) * w == y * w + w) by (nonlinear_arith);
    assert(y * w >= 0) by (nonlinear_arith)
        requires
            y >= 0,
            w >= 1,
    ;
    let i = m.pos.0 + m.pos.1 * w;
    let c = m.grid.cells.update(i, (m.grid.cells[i] + 1) as u16);
    let d = chosen_dir(c, w, m.pos, m.dir);
    let x = m.pos.0 as int;
    let m1 = stepped(m, w);
    assert(m1.pos == d.moved(m.pos));
    match d {
        Direction::Left => {
            assert(m1.pos.0 == x - 1 && m1.pos.1 == y);
        },
        Direction::Up => {
            assert(m1.pos.0 == x && m1.pos.1 == y - 1);
        },
        Direction::Down => {
            assert(m1.pos.0 == x && m1.pos.1 == y + 1);
        },
        Direction::Right => {
            assert(m1.pos.0 == x + 1 && m1.pos.1 == y);
        },
    }
}

/// Along a walk, the games that branch off have fewer open tiles than the
/// game the walk started from, and there are no more of them than the tiles
/// the bug never visited besides its own.
pub proof fn lemma_walk_progress(m: BugModel, w: int, size: int)
    requires
        playable(m, w, size),
        size <= usize::MAX,
    ensures
        walk(m, w, size / w, size).1.len() <= spare_zeros(m, w),
        forall|k: int|
            0 <= k < walk(m, w, size / w, size).1.len() ==> count_open(
                (#[trigger] walk(m, w, size / w, size).1[k]).grid.cells,
            ) + 1 <= count_open(m.grid.cells),
        spare_zeros(m, w) >= 0,
    decreases u64::MAX - m.steps,
{
    let h = size / w;
    let c = m.grid.cells;
    let i = m.pos.0 + m.pos.1 * w;
    vstd::arithmetic::div_mod::lemma_fundamental_div_mod(size, w);
    assert(w * h <= size) by (nonlinear_arith)
        requires
            size == w * (size / w) + size % w,
            size % w >= 0,
            h == size / w,
    ;
    if at(c, w, m.pos.0 as int, m.pos.1 as int) == 0 {
        lemma_zero_found(c, i);
    }
    if !at_goal(m, w, h) && can_step(m, w, size) {
        let m1 = stepped(m, w);
        let c1 = m1.grid.cells;
        let i1 = m1.pos.0 + m1.pos.1 * w;
        lemma_step_moves(m, w, size);
        lemma_step_keeps_playable(m, w, size);
        lemma_walk_progress(m1, w, size);
        lemma_count_zero_update(c, i, (c[i] + 1) as u16);
        lemma_count_open_update(c, i, (c[i] + 1) as u16);
        assert(c1[i1] == c[i1]);
        let rest = walk(m1, w, h, size);
        if at(c1, w, m1.pos.0 as int, m1.pos.1 as int) == 0 && !branch_blocked(m, m1, w, h) {
            let b: Seq<BugModel> = if wall_allowed(c, w, m1.pos.0 as int, m1.pos.1 as int) {
                seq![BugModel { grid: placed(m.grid, w, h, m1.pos.0 as int, m1.pos.1 as int), ..m }]
            } else {
                Seq::empty()
            };
            if wall_allowed(c, w, m1.pos.0 as int, m1.pos.1 as int) {
                lemma_placed_closes_one(m.grid, w, h, m1.pos.0 as int, m1.pos.1 as int);
            }
            assert forall|k: int| 0 <= k < (b + rest.1).len() implies count_open(
                (#[trigger] (b + rest.1)[k]).grid.cells,
            ) + 1 <= count_open(c) by {
                if k >= b.len() {
                    assert((b + rest.1)[k] == rest.1[k - b.len()]);
                }
            }
        }
    }
}

proof fn lemma_weight_mono(base: nat, e1: nat, e2: nat)
    requires
        base >= 1,
        e1 <= e2,
    ensures
        weight(base, e1) <= weight(base, e2),
    decreases e2,
{
    if e1 < e2 {
        lemma_weight_mono(base, e1, (e2 - 1) as nat);
        assert(weight(base, (e2 - 1) as nat) <= base * weight(base, (e2 - 1) as nat)) by (nonlinear_arith)
            requires
                base >= 1,
        ;
    }
}

proof fn lemma_stack_weight_concat(a: Seq<BugModel>, b: Seq<BugModel>, base: nat)
    ensures
        stack_weight(a + b, base) == stack_weight(a, base) + stack_weight(b, base),
    decreases b.len(),
{
    if b.len() == 0 {
        assert(a + b =~= a);
    } else {
        assert((a + b).drop_last() =~= a + b.drop_last());
        lemma_stack_weight_concat(a, b.drop_last(), base);
    }
}

/// A stack of `n` games, each with at most `e` open tiles, weighs at most `n`
/// times `base` to the power `e`.
proof fn lemma_stack_weight_bound(s: Seq<BugModel>, base: nat, e: nat)
    requires
        base >= 1,
        forall|k: int| 0 <= k < s.len() ==> count_open((#[trigger] s[k]).grid.cells) <= e,
    ensures
        stack_weight(s, base) <= s.len() * weight(base, e),
    decreases s.len(),
{
    if s.len() > 0 {
        lemma_stack_weight_bound(s.drop_last(), base, e);
        lemma_weight_mono(base, count_open(s.last().grid.cells), e);
        assert(s.last() == s[s.len() - 1]);
        assert((s.len() - 1) * weight(base, e) + weight(base, e) == s.len() * weight(base, e)) by (nonlinear_arith);
    }
}

/// Playing out the last game of a stack leaves less work than there was: the
/// games that branch off weigh less than the game played.
pub proof fn lemma_search_progress(s: Seq<BugModel>, w: int, size: int)
    requires
        s.len() > 0,
        playable(s.last(), w, size),
        0 <= size <= usize::MAX,
    ensures
        stack_weight(s.drop_last() + walk(s.last(), w, size / w, size).1, (size + 1) as nat) < stack_weight(
            s,
            (size + 1) as nat,
        ),
{
    let base = (size + 1) as nat;
    let m = s.last();
    let bs = walk(m, w, size / w, size).1;
    let n = count_open(m.grid.cells);
    lemma_walk_progress(m, w, size);
    lemma_zero_le_open(m.grid.cells);
    lemma_stack_weight_concat(s.drop_last(), bs, base);
    if bs.len() > 0 {
        assert(count_open(bs[0].grid.cells) + 1 <= n);
        let e = (n - 1) as nat;
        lemma_stack_weight_bound(bs, base, e);
        assert(bs.len() <= n);
        assert(n <= size);
        lemma_weight_pos(base, e);
        assert(bs.len() * weight(base, e) < base * weight(base, e)) by (nonlinear_arith)
            requires
                bs.len() < base,
                weight(base, e) >= 1,
        ;
        lemma_weight_pos(base, e);
    } else {
        lemma_weight_pos(base, n);
    }
}

proof fn lemma_weight_pos(base: nat, e: nat)
    requires
        base >= 1,
    ensures
        weight(base, e) >= 1,
    decreases e,
{
    if e > 0 {
        lemma_weight_pos(base, (e - 1) as nat);
        assert(base * weight(base, (e - 1) as nat) >= 1) by (nonlinear_arith)
            requires
                base >= 1,
                weight(base, (e - 1) as nat) >= 1,
        ;
    }
}

} // verus!
