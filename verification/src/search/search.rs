use vstd::prelude::*;
use crate::bug::bitbug::{BitBug, BugModel, TileGrid, can_step, stepped, after};
use crate::bug::grid_spec::{
    TILE_MAX, at, border_walled, in_grid, interior, placed, wall_allowed, wall_two,
    lemma_index_in_range,
};
use crate::bug::flood_lemmas::lemma_placed_border;
use crate::search::progress::{stack_weight, lemma_search_progress};

verus! {

/// The bug stands on the goal: the last tile inside the borders.
pub open spec fn at_goal(m: BugModel, w: int, h: int) -> bool {
    m.pos.0 == w - 2 && m.pos.1 == h - 2
}

/// The bug `m` stepped to `m1` onto a tile never visited, where a wall cannot
/// be asked for: the tile is not inside the borders, or the wall counter is full.
pub open spec fn branch_blocked(m: BugModel, m1: BugModel, w: int, h: int) -> bool {
    !interior(w, h, m1.pos.0 as int, m1.pos.1 as int) || m.grid.walls == u16::MAX
}

/// Where a bug ends when it walks until it reaches the goal: its final state,
/// the games branched off on the way, and whether it reached the goal.  Each
/// time the bug steps onto a tile it never visited, the game as it stood
/// before the step, with a wall on that tile, branches off if the wall is
/// allowed.  The walk stops early where a step cannot be taken, or a wall
/// cannot be asked for on such a tile.
pub open spec fn walk(m: BugModel, w: int, h: int, size: int) -> (BugModel, Seq<BugModel>, bool)
    decreases u64::MAX - m.steps,
{
    if at_goal(m, w, h) {
        (m, Seq::empty(), true)
    } else if !can_step(m, w, size) {
        (m, Seq::empty(), false)
    } else {
        let m1 = stepped(m, w);
        if at(m1.grid.cells, w, m1.pos.0 as int, m1.pos.1 as int) == 0 {
            if branch_blocked(m, m1, w, h) {
                (m1, Seq::empty(), false)
            } else {
                let rest = walk(m1, w, h, size);
                let b: Seq<BugModel> = if wall_allowed(m.grid.cells, w, m1.pos.0 as int, m1.pos.1 as int) {
                    seq![BugModel { grid: placed(m.grid, w, h, m1.pos.0 as int, m1.pos.1 as int), ..m }]
                } else {
                    Seq::empty()
                };
                (rest.0, b + rest.1, rest.2)
            }
        } else {
            walk(m1, w, h, size)
        }
    }
}

/// Where a bug ends when it walks until it reaches the goal, and whether it
/// reached it; the walk stops early where a step cannot be taken.
pub open spec fn run_out(m: BugModel, w: int, h: int, size: int) -> (BugModel, bool)
    decreases u64::MAX - m.steps,
{
    if at_goal(m, w, h) {
        (m, true)
    } else if !can_step(m, w, size) {
        (m, false)
    } else {
        run_out(stepped(m, w), w, h, size)
    }
}

proof fn lemma_after_shift(m: BugModel, w: int, k: nat)
    ensures
        after(stepped(m, w), w, k) == after(m, w, k + 1),
    decreases k,
{
    assert(after(m, w, k + 1) == stepped(after(m, w, k), w));
    if k > 0 {
        lemma_after_shift(m, w, (k - 1) as nat);
        assert(after(stepped(m, w), w, k) == stepped(after(stepped(m, w), w, (k - 1) as nat), w));
    } else {
        assert(after(m, w, 0) == m);
    }
}

proof fn lemma_run_out_index(m: BugModel, w: int, h: int, size: int) -> (k: nat)
    ensures
        run_out(m, w, h, size).0 == after(m, w, k),
        forall|i: nat| i < k ==> !at_goal(#[trigger] after(m, w, i), w, h) && can_step(after(m, w, i), w, size),
        at_goal(after(m, w, k), w, h) || !can_step(after(m, w, k), w, size),
        run_out(m, w, h, size).1 == at_goal(after(m, w, k), w, h),
    decreases u64::MAX - m.steps,
{
    if at_goal(m, w, h) || !can_step(m, w, size) {
        0
    } else {
        let m1 = stepped(m, w);
        let k1 = lemma_run_out_index(m1, w, h, size);
        lemma_after_shift(m, w, k1);
        assert forall|i: nat| i < k1 + 1 implies !at_goal(#[trigger] after(m, w, i), w, h) && can_step(
            after(m, w, i),
            w,
            size,
        ) by {
            if i > 0 {
                lemma_after_shift(m, w, (i - 1) as nat);
                assert(after(m1, w, (i - 1) as nat) == after(m, w, i));
            }
        }
        k1 + 1
    }
}

/// A walk to the goal ends after the fewest steps at which the bug stands on
/// the goal or cannot step on: it takes every step it can until then, so
/// going back over visited tiles never ends it.  It reports that it reached
/// the goal exactly when it stands on it.
pub proof fn lemma_run_out_first_stop(m: BugModel, w: int, h: int, size: int)
    ensures
        exists|k: nat|
            {
                &&& run_out(m, w, h, size).0 == after(m, w, k)
                &&& (forall|i: nat| i < k ==> !at_goal(#[trigger] after(m, w, i), w, h) && can_step(after(m, w, i), w, size))
                &&& (at_goal(after(m, w, k), w, h) || !can_step(after(m, w, k), w, size))
                &&& run_out(m, w, h, size).1 == at_goal(after(m, w, k), w, h)
            },
{
    let k = lemma_run_out_index(m, w, h, size);
    assert(run_out(m, w, h, size).0 == after(m, w, k));
}

impl<const WIDTH: usize, const SIZE: usize> BitBug<WIDTH, SIZE> {
    /// Walks the bug until it reaches the goal and gives its step count; the
    /// walk stops early where a step cannot be taken (see `run_out`).
    pub fn simulate(&mut self) -> (steps: u64)
        requires
            WIDTH >= 2,
            SIZE / WIDTH >= 2,
        ensures
            final(self)@ == run_out(old(self)@, WIDTH as int, SIZE as int / WIDTH as int, SIZE as int).0,
            steps == final(self)@.steps,
            exists|k: nat|
                {
                    &&& final(self)@ == #[trigger] after(old(self)@, WIDTH as int, k)
                    &&& (forall|i: nat|
                        i < k ==> !at_goal(#[trigger] after(old(self)@, WIDTH as int, i), WIDTH as int, SIZE as int / WIDTH as int)
                            && can_step(after(old(self)@, WIDTH as int, i), WIDTH as int, SIZE as int))
                    &&& (at_goal(final(self)@, WIDTH as int, SIZE as int / WIDTH as int) || !can_step(
                        final(self)@,
                        WIDTH as int,
                        SIZE as int,
                    ))
                },
    {
        proof {
            lemma_run_out_first_stop(self@, WIDTH as int, SIZE as int / WIDTH as int, SIZE as int);
        }
        while !self.is_done() && self.can_take_step()
            invariant
                WIDTH >= 2,
                SIZE / WIDTH >= 2,
                run_out(self@, WIDTH as int, SIZE as int / WIDTH as int, SIZE as int) == run_out(
                    old(self)@,
                    WIDTH as int,
                    SIZE as int / WIDTH as int,
                    SIZE as int,
                ),
            decreases u64::MAX - self@.steps,
        {
            self.take_step();
        }
        proof {
            self.lemma_steps();
        }
        self.steps
    }
}

pub open spec fn views<const WIDTH: usize, const SIZE: usize>(s: Seq<BitBug<WIDTH, SIZE>>) -> Seq<BugModel> {
    s.map_values(|b: BitBug<WIDTH, SIZE>| b@)
}

/// The grid is wide and tall enough to have a goal, and the bug's borders hold
/// walls joined to them.
pub open spec fn playable(m: BugModel, w: int, size: int) -> bool {
    &&& w >= 2
    &&& size / w >= 2
    &&& border_walled(m.grid.cells, w, size / w)
    &&& m.grid.cells.len() == size
    &&& m.pos.0 + m.pos.1 * w < size
}

pub proof fn lemma_step_keeps_playable(m: BugModel, w: int, size: int)
    requires
        playable(m, w, size),
        can_step(m, w, size),
    ensures
        playable(stepped(m, w), w, size),
{
    let h = size / w;
    let i = m.pos.0 + m.pos.1 * w;
    let c = stepped(m, w).grid.cells;
    lemma_step_in_range(m, w, size);
    vstd::arithmetic::div_mod::lemma_fundamental_div_mod(size, w);
    assert(w * h <= size) by (nonlinear_arith)
        requires
            size == w * (size / w) + size % w,
            size % w >= 0,
            h == size / w,
    ;
    assert forall|a: int, b: int| in_grid(w, h, a, b) && !interior(w, h, a, b) implies at(c, w, a, b) >= wall_two() by {
        lemma_index_in_range(w, h, a, b);
        if a + b * w == i {
        } else {
        }
    }
}

/// After a step the bug still stands on a cell of the grid's storage.
proof fn lemma_step_in_range(m: BugModel, w: int, size: int)
    requires
        can_step(m, w, size),
        w >= 1,
    ensures
        stepped(m, w).pos.0 + stepped(m, w).pos.1 * w < size,
{
    let x = m.pos.0 as int;
    let y = m.pos.1 as int;
    assert((y - 1) * w <= y * w) by (nonlinear_arith)
        requires
            w >= 1,
    ;
}

/// The walk's branches are playable games.
pub proof fn lemma_walk_playable(m: BugModel, w: int, size: int)
    requires
        playable(m, w, size),
    ensures
        forall|i: int| 0 <= i < walk(m, w, size / w, size).1.len() ==> playable(#[trigger] walk(m, w, size / w, size).1[i], w, size),
        playable(walk(m, w, size / w, size).0, w, size),
    decreases u64::MAX - m.steps,
{
    let h = size / w;
    if !at_goal(m, w, h) && can_step(m, w, size) {
        let m1 = stepped(m, w);
        lemma_step_keeps_playable(m, w, size);
        lemma_walk_playable(m1, w, size);
        if at(m1.grid.cells, w, m1.pos.0 as int, m1.pos.1 as int) == 0 && !branch_blocked(m, m1, w, h) {
            vstd::arithmetic::div_mod::lemma_fundamental_div_mod(size, w);
            assert(w * h <= size) by (nonlinear_arith)
                requires
                    size == w * (size / w) + size % w,
                    size % w >= 0,
                    h == size / w,
            ;
            lemma_placed_border(m.grid, w, h, m1.pos.0 as int, m1.pos.1 as int);
            let rest = walk(m1, w, h, size);
            let b: Seq<BugModel> = if wall_allowed(m.grid.cells, w, m1.pos.0 as int, m1.pos.1 as int) {
                seq![BugModel { grid: placed(m.grid, w, h, m1.pos.0 as int, m1.pos.1 as int), ..m }]
            } else {
                Seq::empty()
            };
            assert forall|i: int| 0 <= i < (b + rest.1).len() implies playable(#[trigger] (b + rest.1)[i], w, size) by {
                if i < b.len() {
                } else {
                    assert((b + rest.1)[i] == rest.1[i - b.len()]);
                }
            }
        }
    }
}

/// Walks the bug until it reaches the goal; gives its final state, the games
/// branched off on the way (see `walk`), and whether it reached the goal.
pub fn play_out<const WIDTH: usize, const SIZE: usize>(game: BitBug<WIDTH, SIZE>) -> (r: (BitBug<WIDTH, SIZE>, Vec<BitBug<WIDTH, SIZE>>, bool))
    requires
        playable(game@, WIDTH as int, SIZE as int),
    ensures
        (r.0@, views(r.1@), r.2) == walk(game@, WIDTH as int, SIZE as int / WIDTH as int, SIZE as int),
{
    let ghost w = WIDTH as int;
    let ghost h = SIZE as int / WIDTH as int;
    let ghost size = SIZE as int;
    let ghost start = game@;
    let mut cur = game;
    let mut branches: Vec<BitBug<WIDTH, SIZE>> = Vec::new();
    proof {
        cur.lemma_shape();
        assert(views(branches@) =~= Seq::<BugModel>::empty());
    }
    while !cur.is_done()
        invariant
            w == WIDTH as int,
            h == SIZE as int / WIDTH as int,
            h == TileGrid::<WIDTH, SIZE>::height(),
            size == SIZE as int,
            start == game@,
            w >= 2,
            h >= 2,
            w * h <= SIZE,
            playable(cur@, w, size),
            walk(start, w, h, size) == (walk(cur@, w, h, size).0, views(branches@) + walk(cur@, w, h, size).1, walk(cur@, w, h, size).2),
        decreases u64::MAX - cur@.steps,
    {
        if !cur.can_take_step() {
            proof {
                assert(!at_goal(cur@, w, h));
                assert(walk(cur@, w, h, size) == (cur@, Seq::<BugModel>::empty(), false));
                assert(views(branches@) + Seq::<BugModel>::empty() =~= views(branches@));
                assert(walk(start, w, h, size) == (cur@, views(branches@), false));
            }
            return (cur, branches, false);
        }
        let ghost before = cur@;
        let mut game_cpy = cur.clone();
        cur.take_step();
        proof {
            lemma_step_keeps_playable(before, w, size);
            lemma_step_in_range(before, w, size);
            cur.lemma_shape();
        }
        if cur.unseen() {
            let (x, y) = cur.pos();
            proof {
                game_cpy.lemma_view();
                game_cpy.tiles.lemma_walls();
            }
            if !(1 <= x && x < WIDTH - 1 && 1 <= y && y < SIZE / WIDTH - 1) || game_cpy.tiles.walls == u16::MAX {
                proof {
                    assert(views(branches@) + Seq::<BugModel>::empty() =~= views(branches@));
                }
                return (cur, branches, false);
            }
            proof {
                lemma_index_in_range(w, h, x as int, y as int);
            }
            if game_cpy.set_wall(x, y) {
                let ghost bs = views(branches@);
                branches.push(game_cpy);
                proof {
                    assert(views(branches@) =~= bs.push(game_cpy@));
                    let rest = walk(cur@, w, h, size);
                    assert(bs + (seq![game_cpy@] + rest.1) =~= bs.push(game_cpy@) + rest.1);
                }
            } else {
                proof {
                    let rest = walk(cur@, w, h, size);
                    assert(Seq::<BugModel>::empty() + rest.1 =~= rest.1);
                }
            }
        }
    }
    proof {
        assert(views(branches@) + Seq::<BugModel>::empty() =~= views(branches@));
    }
    (cur, branches, true)
}


/// Checks that a game can be played out: the grid has a goal, its borders
/// hold walls joined to them, and the bug stands on the grid.
pub fn is_playable<const WIDTH: usize, const SIZE: usize>(game: &BitBug<WIDTH, SIZE>) -> (r: bool)
    ensures
        r == playable(game@, WIDTH as int, SIZE as int),
{
    proof {
        game.lemma_view();
        game.lemma_shape();
    }
    if WIDTH < 2 || SIZE / WIDTH < 2 {
        return false;
    }
    let pos = game.pos();
    let row = match pos.1.checked_mul(WIDTH) {
        Some(v) => v,
        None => return false,
    };
    let idx = match pos.0.checked_add(row) {
        Some(v) => v,
        None => return false,
    };
    if idx >= SIZE {
        return false;
    }
    let h = SIZE / WIDTH;
    let ghost w = WIDTH as int;
    let ghost c = game@.grid.cells;
    let mut y: usize = 0;
    while y < h
        invariant
            y <= h,
            h == SIZE / WIDTH,
            w == WIDTH,
            2 <= h,
            2 <= w,
            w * h <= SIZE,
            c == game@.grid.cells,
            c == game.tiles@.cells,
            forall|a: int, b: int|
                in_grid(w, h as int, a, b) && b < y && !interior(w, h as int, a, b) ==> #[trigger] at(c, w, a, b)
                    >= wall_two(),
        decreases h - y,
    {
        let mut x: usize = 0;
        while x < WIDTH
            invariant
                x <= WIDTH,
                y < h,
                h == SIZE / WIDTH,
                w == WIDTH,
                2 <= h,
                2 <= w,
                w * h <= SIZE,
                c == game@.grid.cells,
                c == game.tiles@.cells,
                forall|a: int, b: int|
                    in_grid(w, h as int, a, b) && (b < y || (b == y && a < x)) && !interior(w, h as int, a, b)
                        ==> #[trigger] at(c, w, a, b) >= wall_two(),
            decreases WIDTH - x,
        {
            proof {
                lemma_index_in_range(w, h as int, x as int, y as int);
            }
            if x == 0 || x + 1 == WIDTH || y == 0 || y + 1 == h {
                if game.tiles.get(x, y) < TILE_MAX - 1 {
                    assert(!interior(w, h as int, x as int, y as int));
                    assert(at(c, w, x as int, y as int) < wall_two());
                    return false;
                }
            }
            x += 1;
        }
        y += 1;
    }
    true
}

/// What one round of the search did with the game it took.
#[derive(Clone, Copy, Debug, PartialEq, Eq, Structural)]
pub enum SearchStep {
    /// The bug reached the goal in at least as many steps as the best so far;
    /// the game is the new best.
    Recorded,
    /// The bug reached the goal in fewer steps than the best so far.
    Played,
    /// The walk stopped early (see `walk`); the game is dropped.
    Stopped,
}

/// The abstract state of a search: the games left to play (the last is played
/// next), the best game and its step count.
pub struct SearchModel {
    pub stack: Seq<BugModel>,
    pub best: BugModel,
    pub best_score: u64,
}

/// A depth-first search for the placement of walls that makes the bug walk
/// longest.
pub struct Searcher<const WIDTH: usize, const SIZE: usize> {
    pub to_search: Vec<BitBug<WIDTH, SIZE>>,
    pub(crate) current_best: BitBug<WIDTH, SIZE>,
    pub(crate) best_score: u64,
}

impl<const WIDTH: usize, const SIZE: usize> View for Searcher<WIDTH, SIZE> {
    type V = SearchModel;

    closed spec fn view(&self) -> SearchModel {
        SearchModel { stack: views(self.to_search@), best: self.current_best@, best_score: self.best_score }
    }
}

/// Every game left to play is playable.
pub open spec fn all_playable(stack: Seq<BugModel>, w: int, size: int) -> bool {
    forall|i: int| 0 <= i < stack.len() ==> playable(#[trigger] stack[i], w, size)
}

/// The search after one round: the last game is played out, the games that
/// branched off from it are added, and it becomes the best if it reached the
/// goal in at least as many steps as the best so far.
pub open spec fn searched(s: SearchModel, w: int, size: int) -> SearchModel {
    let r = walk(s.stack.last(), w, size / w, size);
    let better = r.2 && r.0.steps >= s.best_score;
    SearchModel {
        stack: s.stack.drop_last() + r.1,
        best: if better { r.0 } else { s.best },
        best_score: if better { r.0.steps } else { s.best_score },
    }
}

/// What one round of the search reports.
pub open spec fn search_step(s: SearchModel, w: int, size: int) -> SearchStep {
    let r = walk(s.stack.last(), w, size / w, size);
    if !r.2 {
        SearchStep::Stopped
    } else if r.0.steps >= s.best_score {
        SearchStep::Recorded
    } else {
        SearchStep::Played
    }
}

/// The search run until no game is left, with the games recorded as best on
/// the way, in order.
pub open spec fn finished(s: SearchModel, w: int, size: int) -> (SearchModel, Seq<BugModel>)
    decreases stack_weight(s.stack, (size + 1) as nat),
    when all_playable(s.stack, w, size) && 0 <= size <= usize::MAX
    via finished_decreases
{
    if s.stack.len() == 0 {
        (s, Seq::empty())
    } else {
        let next = searched(s, w, size);
        let rest = finished(next, w, size);
        if search_step(s, w, size) == SearchStep::Recorded {
            (rest.0, seq![next.best] + rest.1)
        } else {
            rest
        }
    }
}

#[via_fn]
proof fn finished_decreases(s: SearchModel, w: int, size: int) {
    if s.stack.len() > 0 {
        lemma_search_progress(s.stack, w, size);
    }
}

/// One round keeps every game left playable.
pub proof fn lemma_searched_playable(s: SearchModel, w: int, size: int)
    requires
        s.stack.len() > 0,
        all_playable(s.stack, w, size),
    ensures
        all_playable(searched(s, w, size).stack, w, size),
{
    let r = walk(s.stack.last(), w, size / w, size);
    lemma_walk_playable(s.stack.last(), w, size);
    let st = s.stack.drop_last() + r.1;
    assert forall|i: int| 0 <= i < st.len() implies playable(#[trigger] st[i], w, size) by {
        if i < s.stack.len() - 1 {
            assert(st[i] == s.stack[i]);
        } else {
            assert(st[i] == r.1[i - (s.stack.len() - 1)]);
        }
    }
}

/// A walk that reached the goal ends on it.
pub proof fn lemma_walk_ends_at_goal(m: BugModel, w: int, h: int, size: int)
    ensures
        walk(m, w, h, size).2 ==> at_goal(walk(m, w, h, size).0, w, h),
    decreases u64::MAX - m.steps,
{
    if !at_goal(m, w, h) && can_step(m, w, size) {
        let m1 = stepped(m, w);
        if at(m1.grid.cells, w, m1.pos.0 as int, m1.pos.1 as int) == 0 {
            if !branch_blocked(m, m1, w, h) {
                lemma_walk_ends_at_goal(m1, w, h, size);
            }
        } else {
            lemma_walk_ends_at_goal(m1, w, h, size);
        }
    }
}

/// One round never lowers the best score.
pub proof fn lemma_searched_keeps_best(s: SearchModel, w: int, size: int)
    ensures
        searched(s, w, size).best_score >= s.best_score,
        search_step(s, w, size) != SearchStep::Recorded ==> searched(s, w, size).best == s.best
            && searched(s, w, size).best_score == s.best_score,
        search_step(s, w, size) == SearchStep::Recorded ==> searched(s, w, size).best_score
            == searched(s, w, size).best.steps && at_goal(searched(s, w, size).best, w, size / w),
{
    lemma_walk_ends_at_goal(s.stack.last(), w, size / w, size);
}

/// A search run to the end leaves no game, never lowers the best score, and
/// records games that reached the goal, in order of their step counts, none
/// below the best score it started with; the last one recorded is the final
/// best.
pub proof fn lemma_finished_records(s: SearchModel, w: int, size: int)
    requires
        all_playable(s.stack, w, size),
        0 <= size <= usize::MAX,
    ensures
        finished(s, w, size).0.stack.len() == 0,
        finished(s, w, size).0.best_score >= s.best_score,
        forall|i: int|
            0 <= i < finished(s, w, size).1.len() ==> #[trigger] finished(s, w, size).1[i].steps
                >= s.best_score && at_goal(finished(s, w, size).1[i], w, size / w),
        forall|i: int, j: int|
            0 <= i <= j < finished(s, w, size).1.len() ==> #[trigger] finished(s, w, size).1[i].steps
                <= #[trigger] finished(s, w, size).1[j].steps,
        finished(s, w, size).1.len() > 0 ==> finished(s, w, size).0.best == finished(s, w, size).1.last()
            && finished(s, w, size).0.best_score == finished(s, w, size).1.last().steps,
        finished(s, w, size).1.len() == 0 ==> finished(s, w, size).0.best == s.best
            && finished(s, w, size).0.best_score == s.best_score,
    decreases stack_weight(s.stack, (size + 1) as nat),
{
    if s.stack.len() > 0 {
        lemma_search_progress(s.stack, w, size);
        lemma_searched_playable(s, w, size);
        let next = searched(s, w, size);
        lemma_finished_records(next, w, size);
        lemma_searched_keeps_best(s, w, size);
        let rest = finished(next, w, size);
        if search_step(s, w, size) == SearchStep::Recorded {
            let recs = seq![next.best] + rest.1;
            assert(finished(s, w, size).1 == recs);
            assert forall|i: int| 0 <= i < recs.len() implies #[trigger] recs[i].steps >= s.best_score && at_goal(
                recs[i],
                w,
                size / w,
            ) by {
                if i > 0 {
                    assert(recs[i] == rest.1[i - 1]);
                }
            }
            assert forall|i: int, j: int| 0 <= i <= j < recs.len() implies #[trigger] recs[i].steps
                <= #[trigger] recs[j].steps by {
                if j > 0 {
                    assert(recs[j] == rest.1[j - 1]);
                }
                if i > 0 {
                    assert(recs[i] == rest.1[i - 1]);
                }
            }
            if rest.1.len() > 0 {
                assert(recs.last() == rest.1.last());
            }
        }
    }
}

impl<const WIDTH: usize, const SIZE: usize> Searcher<WIDTH, SIZE> {
    /// Runs the search until no game is left; gives the games recorded as best
    /// on the way, in order.
    pub fn search_all(&mut self) -> (records: Vec<BitBug<WIDTH, SIZE>>)
        requires
            all_playable(old(self)@.stack, WIDTH as int, SIZE as int),
        ensures
            (final(self)@, views(records@)) == finished(old(self)@, WIDTH as int, SIZE as int),
            final(self)@.stack.len() == 0,
    {
        let ghost start = self@;
        let mut records: Vec<BitBug<WIDTH, SIZE>> = Vec::new();
        loop
            invariant
                start == old(self)@,
                all_playable(self@.stack, WIDTH as int, SIZE as int),
                finished(start, WIDTH as int, SIZE as int) == (finished(self@, WIDTH as int, SIZE as int).0, views(records@) + finished(self@, WIDTH as int, SIZE as int).1),
            decreases stack_weight(self@.stack, (SIZE + 1) as nat),
        {
            let ghost before = self@;
            proof {
                if before.stack.len() > 0 {
                    lemma_search_progress(before.stack, WIDTH as int, SIZE as int);
                    lemma_searched_playable(before, WIDTH as int, SIZE as int);
                }
            }
            match self.search_last() {
                None => {
                    proof {
                        assert(views(records@) + Seq::<BugModel>::empty() =~= views(records@));
                    }
                    return records;
                },
                Some(SearchStep::Recorded) => {
                    let ghost rs = views(records@);
                    records.push(self.current_best());
                    proof {
                        assert(views(records@) =~= rs.push(self@.best));
                        let rest = finished(self@, WIDTH as int, SIZE as int).1;
                        assert(rs + (seq![self@.best] + rest) =~= rs.push(self@.best) + rest);
                    }
                },
                Some(_) => {},
            }
        }
    }

    /// A search that starts from `position`, with no best score yet.
    pub fn new(position: BitBug<WIDTH, SIZE>) -> (s: Self)
        ensures
            s@ == (SearchModel { stack: seq![position@], best: position@, best_score: 0 }),
    {
        let s = Searcher { to_search: vec![position.clone()], current_best: position, best_score: 0 };
        proof {
            assert(views(s.to_search@) =~= seq![position@]);
        }
        s
    }

    /// The highest step count recorded.
    pub fn best_score(&self) -> (r: u64)
        ensures
            r == self@.best_score,
    {
        self.best_score
    }

    /// The game with the highest step count recorded.
    pub fn current_best(&self) -> (r: BitBug<WIDTH, SIZE>)
        ensures
            r@ == self@.best,
    {
        self.current_best
    }

    /// Plays out the last game left, adds the games that branch off from it,
    /// and records it if it beats or matches the best; `None` once no game is
    /// left.
    pub fn search_last(&mut self) -> (r: Option<SearchStep>)
        requires
            old(self)@.stack.len() > 0 ==> playable(old(self)@.stack.last(), WIDTH as int, SIZE as int),
        ensures
            old(self)@.stack.len() == 0 ==> r is None && final(self)@ == old(self)@,
            old(self)@.stack.len() > 0 ==> r == Some(search_step(old(self)@, WIDTH as int, SIZE as int))
                && final(self)@ == searched(old(self)@, WIDTH as int, SIZE as int),
            all_playable(old(self)@.stack, WIDTH as int, SIZE as int) ==> all_playable(
                final(self)@.stack,
                WIDTH as int,
                SIZE as int,
            ),
    {
        let ghost old_stack = self@.stack;
        let ghost best0 = self@.best;
        let ghost score0 = self@.best_score;
        let game = match self.to_search.pop() {
            Some(g) => g,
            None => {
                return None;
            },
        };
        proof {
            assert(views(self.to_search@) =~= old_stack.drop_last());
            assert(game@ == old_stack.last());
            lemma_walk_playable(game@, WIDTH as int, SIZE as int);
        }
        let (game, branches, done) = play_out(game);
        let ghost base = views(self.to_search@);
        let mut i: usize = 0;
        while i < branches.len()
            invariant
                i <= branches@.len(),
                old_stack.len() > 0,
                base == old_stack.drop_last(),
                self@.best == best0,
                self@.best_score == score0,
                views(self.to_search@) == base + views(branches@).take(i as int),
            decreases branches@.len() - i,
        {
            let ghost before = views(self.to_search@);
            self.to_search.push(branches[i]);
            proof {
                assert(views(self.to_search@) =~= before.push(branches@[i as int]@));
                assert(views(branches@).take(i + 1) =~= views(branches@).take(i as int).push(branches@[i as int]@));
            }
            i += 1;
        }
        proof {
            assert(views(branches@).take(branches@.len() as int) =~= views(branches@));
        }
        if done {
            if game.steps >= self.best_score {
                self.best_score = game.steps;
                self.current_best = game;
                proof {
                    game.lemma_steps();
                }
                return Some(SearchStep::Recorded);
            }
            proof {
                game.lemma_steps();
            }
            return Some(SearchStep::Played);
        }
        Some(SearchStep::Stopped)
    }
}

} // verus!
