use vstd::prelude::*;
use crate::bug::bitbug::{BitBug, BugModel};
use crate::search::search::{
    SearchModel, Searcher, SearchStep, finished, playable, play_out, views, walk, lemma_walk_playable,
    lemma_finished_records, all_playable, search_step,
};

verus! {

/// A game shorter than this many steps is handed to the other workers of a
/// parallel search; a longer one is searched to the end by the worker that
/// found it.
pub const SHARE_LIMIT: u64 = 10;

/// What a worker of a parallel search does with a game that branched off.
pub enum Found<const WIDTH: usize, const SIZE: usize> {
    /// The game is short: it goes to the shared stack.
    Share(BitBug<WIDTH, SIZE>),
    /// The game was searched to the end on the spot: the finished search, and
    /// the games it recorded as best on the way.
    Local(Searcher<WIDTH, SIZE>, Vec<BitBug<WIDTH, SIZE>>),
}

pub enum FoundModel {
    Share(BugModel),
    Local(SearchModel, Seq<BugModel>),
}

impl<const WIDTH: usize, const SIZE: usize> View for Found<WIDTH, SIZE> {
    type V = FoundModel;

    open spec fn view(&self) -> FoundModel {
        match self {
            Found::Share(b) => FoundModel::Share(b@),
            Found::Local(s, r) => FoundModel::Local(s@, views(r@)),
        }
    }
}

/// What becomes of a branch game `b`.
pub open spec fn found_for(b: BugModel, w: int, size: int) -> FoundModel {
    if b.steps <= SHARE_LIMIT {
        FoundModel::Share(b)
    } else {
        let r = finished(SearchModel { stack: seq![b], best: b, best_score: 0 }, w, size);
        FoundModel::Local(r.0, r.1)
    }
}

/// What becomes of every game that branches off the walk of `game`, in order.
pub open spec fn explored(game: BugModel, w: int, size: int) -> Seq<FoundModel> {
    Seq::new(walk(game, w, size / w, size).1.len(), |i: int| found_for(walk(game, w, size / w, size).1[i], w, size))
}

/// Plays a game out for a worker of a parallel search: gives what became of
/// each game that branched off, in order, and the walk's final game and
/// whether it reached the goal (see `walk`).
pub fn explore<const WIDTH: usize, const SIZE: usize>(game: BitBug<WIDTH, SIZE>) -> (r: (Vec<Found<WIDTH, SIZE>>, BitBug<WIDTH, SIZE>, bool))
    requires
        playable(game@, WIDTH as int, SIZE as int),
    ensures
        r.0@.len() == walk(game@, WIDTH as int, SIZE as int / WIDTH as int, SIZE as int).1.len(),
        forall|i: int|
            0 <= i < r.0@.len() ==> (#[trigger] r.0@[i])@ == found_for(
                walk(game@, WIDTH as int, SIZE as int / WIDTH as int, SIZE as int).1[i],
                WIDTH as int,
                SIZE as int,
            ),
        r.1@ == walk(game@, WIDTH as int, SIZE as int / WIDTH as int, SIZE as int).0,
        r.2 == walk(game@, WIDTH as int, SIZE as int / WIDTH as int, SIZE as int).2,
        found_views(r.0@) == explored(game@, WIDTH as int, SIZE as int),
{
    proof {
        lemma_walk_playable(game@, WIDTH as int, SIZE as int);
    }
    let (last, branches, reached) = play_out(game);
    let ghost bs = views(branches@);
    let mut found: Vec<Found<WIDTH, SIZE>> = Vec::new();
    let mut i: usize = 0;
    while i < branches.len()
        invariant
            i <= branches@.len(),
            bs == views(branches@),
            forall|k: int| 0 <= k < bs.len() ==> playable(#[trigger] bs[k], WIDTH as int, SIZE as int),
            found@.len() == i,
            forall|k: int| 0 <= k < i ==> (#[trigger] found@[k])@ == found_for(bs[k], WIDTH as int, SIZE as int),
        decreases branches@.len() - i,
    {
        let b = branches[i];
        assert(b@ == bs[i as int]);
        if b.steps <= SHARE_LIMIT {
            proof {
                b.lemma_steps();
            }
            found.push(Found::Share(b));
        } else {
            proof {
                b.lemma_steps();
            }
            let mut searcher = Searcher::new(b);
            let records = searcher.search_all();
            found.push(Found::Local(searcher, records));
        }
        i += 1;
    }
    proof {
        assert(found_views(found@) =~= explored(game@, WIDTH as int, SIZE as int));
    }
    (found, last, reached)
}

/// A search whose workers run side by side: each can put a worker to work
/// under a name.
pub trait Search {
    fn spawn_search_thread(&self, id: String);
}

/// The state that the workers of a parallel search share: the games left to
/// play (the last is taken next), the best game and its step count.
pub struct MSearcher<const WIDTH: usize, const SIZE: usize> {
    pub to_search: Vec<BitBug<WIDTH, SIZE>>,
    pub(crate) current_best: BitBug<WIDTH, SIZE>,
    pub(crate) best_score: u64,
}

impl<const WIDTH: usize, const SIZE: usize> View for MSearcher<WIDTH, SIZE> {
    type V = SearchModel;

    closed spec fn view(&self) -> SearchModel {
        SearchModel { stack: views(self.to_search@), best: self.current_best@, best_score: self.best_score }
    }
}

pub open spec fn found_views<const WIDTH: usize, const SIZE: usize>(s: Seq<Found<WIDTH, SIZE>>) -> Seq<FoundModel> {
    s.map_values(|f: Found<WIDTH, SIZE>| f@)
}

pub open spec fn scored_views<const WIDTH: usize, const SIZE: usize>(s: Seq<(u64, BitBug<WIDTH, SIZE>)>) -> Seq<(u64, BugModel)> {
    s.map_values(|p: (u64, BitBug<WIDTH, SIZE>)| (p.0, p.1@))
}

/// The shared state after `game`, with step count `score`, is offered as the
/// best: it is taken if the score is at least the best so far.
pub open spec fn offered(s: SearchModel, score: u64, game: BugModel) -> SearchModel {
    if score >= s.best_score {
        SearchModel { best: game, best_score: score, ..s }
    } else {
        s
    }
}

/// The shared state after one result of a worker: a short game goes on the
/// stack, a finished local search offers its best.
pub open spec fn merged_one(s: SearchModel, f: FoundModel) -> SearchModel {
    match f {
        FoundModel::Share(b) => SearchModel { stack: s.stack.push(b), ..s },
        FoundModel::Local(r, _) => offered(s, r.best_score, r.best),
    }
}

/// The shared state after the results `found` of a worker, in order.
pub open spec fn merged(s: SearchModel, found: Seq<FoundModel>) -> SearchModel
    decreases found.len(),
{
    if found.len() == 0 {
        s
    } else {
        merged_one(merged(s, found.drop_last()), found.last())
    }
}

/// The bests taken while merging `found`, each with its step count, in order.
pub open spec fn merged_bests(s: SearchModel, found: Seq<FoundModel>) -> Seq<(u64, BugModel)>
    decreases found.len(),
{
    if found.len() == 0 {
        Seq::empty()
    } else {
        let prev = merged(s, found.drop_last());
        merged_bests(s, found.drop_last()) + match found.last() {
            FoundModel::Local(r, _) => if r.best_score >= prev.best_score {
                seq![(r.best_score, r.best)]
            } else {
                Seq::empty()
            },
            FoundModel::Share(_) => Seq::empty(),
        }
    }
}

/// The shared state after a worker's walk: its results merged, then its final
/// game offered if it reached the goal.
pub open spec fn walk_merged(s: SearchModel, found: Seq<FoundModel>, last: BugModel, reached: bool) -> SearchModel {
    let m = merged(s, found);
    if reached {
        offered(m, last.steps, last)
    } else {
        m
    }
}

/// The bests taken while merging a worker's walk, in order.
pub open spec fn walk_bests(s: SearchModel, found: Seq<FoundModel>, last: BugModel, reached: bool) -> Seq<(u64, BugModel)> {
    let m = merged(s, found);
    merged_bests(s, found) + if reached && last.steps >= m.best_score {
        seq![(last.steps, last)]
    } else {
        Seq::empty()
    }
}

/// Merging a worker's results never lowers the best score, and every best it
/// takes scores at least the best score before.
pub proof fn lemma_merged_keeps_best(s: SearchModel, found: Seq<FoundModel>, last: BugModel, reached: bool)
    ensures
        walk_merged(s, found, last, reached).best_score >= s.best_score,
        forall|i: int|
            0 <= i < walk_bests(s, found, last, reached).len() ==> #[trigger] walk_bests(
                s,
                found,
                last,
                reached,
            )[i].0 >= s.best_score,
{
    lemma_merged_monotone(s, found);
}

proof fn lemma_merged_monotone(s: SearchModel, found: Seq<FoundModel>)
    ensures
        merged(s, found).best_score >= s.best_score,
        forall|i: int| 0 <= i < merged_bests(s, found).len() ==> #[trigger] merged_bests(s, found)[i].0 >= s.best_score,
    decreases found.len(),
{
    if found.len() > 0 {
        lemma_merged_monotone(s, found.drop_last());
        let prev = merged(s, found.drop_last());
        let pb = merged_bests(s, found.drop_last());
        let all = merged_bests(s, found);
        assert forall|i: int| 0 <= i < all.len() implies #[trigger] all[i].0 >= s.best_score by {
            if i < pb.len() {
                assert(all[i] == pb[i]);
            }
        }
    }
}

/// A local search that recorded a game has as best score the step count of
/// its best game.
pub proof fn lemma_found_best_steps(b: BugModel, w: int, size: int)
    requires
        playable(b, w, size),
        0 <= size <= usize::MAX,
    ensures
        found_for(b, w, size) matches FoundModel::Local(r, recs) ==> (recs.len() > 0 ==> r.best.steps
            == r.best_score),
{
    if b.steps > SHARE_LIMIT {
        let start = SearchModel { stack: seq![b], best: b, best_score: 0 };
        assert(start.stack[0] == b);
        lemma_finished_records(start, w, size);
    }
}

proof fn lemma_merged_steps(s: SearchModel, found: Seq<FoundModel>)
    requires
        forall|i: int|
            0 <= i < found.len() ==> (#[trigger] found[i] matches FoundModel::Local(r, _) ==> r.best.steps
                == r.best_score),
    ensures
        (merged(s, found).best == s.best && merged(s, found).best_score == s.best_score) || merged(
            s,
            found,
        ).best.steps == merged(s, found).best_score,
    decreases found.len(),
{
    if found.len() > 0 {
        let f = found.drop_last();
        assert forall|i: int| 0 <= i < f.len() implies (#[trigger] f[i] matches FoundModel::Local(r, _)
            ==> r.best.steps == r.best_score) by {
            assert(f[i] == found[i]);
        }
        lemma_merged_steps(s, f);
        assert(found.last() == found[found.len() - 1]);
    }
}

/// When merging a worker's results changes the shared best, the new best game
/// has as many steps as the new best score, provided every local search among
/// the results has that property itself (see `lemma_found_best_steps`).
pub proof fn lemma_merged_best_steps(s: SearchModel, found: Seq<FoundModel>, last: BugModel, reached: bool)
    requires
        forall|i: int|
            0 <= i < found.len() ==> (#[trigger] found[i] matches FoundModel::Local(r, _) ==> r.best.steps
                == r.best_score),
    ensures
        walk_merged(s, found, last, reached).best != s.best || walk_merged(s, found, last, reached).best_score
            != s.best_score ==> walk_merged(s, found, last, reached).best.steps == walk_merged(
            s,
            found,
            last,
            reached,
        ).best_score,
{
    lemma_merged_steps(s, found);
}

/// A long branch whose own walk reaches the goal is searched locally with at
/// least one game recorded, so its best score is its best game's step count.
pub proof fn lemma_found_reached(b: BugModel, w: int, size: int)
    requires
        playable(b, w, size),
        0 <= size <= usize::MAX,
        walk(b, w, size / w, size).2,
    ensures
        found_for(b, w, size) matches FoundModel::Local(r, recs) ==> recs.len() > 0 && r.best.steps == r.best_score,
{
    lemma_found_best_steps(b, w, size);
    if b.steps > SHARE_LIMIT {
        let start = SearchModel { stack: seq![b], best: b, best_score: 0 };
        assert(start.stack.last() == b);
        assert(start.stack[0] == b);
        assert(all_playable(start.stack, w, size));
        assert(search_step(start, w, size) == SearchStep::Recorded);
    }
}

/// One round of a parallel worker whose branch walks all reach the goal never
/// lowers the shared best score, and if it changes the shared best, the new
/// best game has as many steps as the new best score.
pub proof fn lemma_round_best_steps(s: SearchModel, game: BugModel, w: int, size: int)
    requires
        playable(game, w, size),
        0 <= size <= usize::MAX,
        forall|i: int|
            0 <= i < walk(game, w, size / w, size).1.len() ==> #[trigger] walk(
                walk(game, w, size / w, size).1[i],
                w,
                size / w,
                size,
            ).2,
    ensures
        ({
            let r = walk(game, w, size / w, size);
            let m = walk_merged(s, explored(game, w, size), r.0, r.2);
            &&& m.best_score >= s.best_score
            &&& (m.best != s.best || m.best_score != s.best_score) ==> m.best.steps == m.best_score
        }),
{
    let r = walk(game, w, size / w, size);
    let f = explored(game, w, size);
    lemma_walk_playable(game, w, size);
    assert forall|i: int| 0 <= i < f.len() implies (#[trigger] f[i] matches FoundModel::Local(q, _) ==> q.best.steps
        == q.best_score) by {
        lemma_found_reached(r.1[i], w, size);
    }
    lemma_merged_best_steps(s, f, r.0, r.2);
    lemma_merged_keeps_best(s, f, r.0, r.2);
}

impl<const WIDTH: usize, const SIZE: usize> MSearcher<WIDTH, SIZE> {
    /// A shared search that starts from `position`, with no best score yet.
    pub fn new(position: BitBug<WIDTH, SIZE>) -> (s: Self)
        ensures
            s@ == (SearchModel { stack: seq![position@], best: position@, best_score: 0 }),
    {
        let s = MSearcher { to_search: vec![position.clone()], current_best: position, best_score: 0 };
        proof {
            assert(views(s.to_search@) =~= seq![position@]);
        }
        s
    }

    /// Takes the last game left; `None` once no game is left.
    pub fn take(&mut self) -> (r: Option<BitBug<WIDTH, SIZE>>)
        ensures
            old(self)@.stack.len() == 0 ==> r is None && final(self)@ == old(self)@,
            old(self)@.stack.len() > 0 ==> r is Some && r->0@ == old(self)@.stack.last() && final(self)@
                == (SearchModel { stack: old(self)@.stack.drop_last(), ..old(self)@ }),
    {
        let ghost before = self@.stack;
        let r = self.to_search.pop();
        proof {
            if before.len() > 0 {
                assert(views(self.to_search@) =~= before.drop_last());
            }
        }
        r
    }

    /// Offers `game`, with step count `score`, as the best; says whether it was
    /// taken.
    pub fn record(&mut self, score: u64, game: BitBug<WIDTH, SIZE>) -> (taken: bool)
        ensures
            taken == (score >= old(self)@.best_score),
            final(self)@ == offered(old(self)@, score, game@),
    {
        if score >= self.best_score {
            self.best_score = score;
            self.current_best = game;
            true
        } else {
            false
        }
    }

    /// Merges what a worker's walk gave (see `explore`): short games go on the
    /// stack, the best of each finished local search and then the final game,
    /// if it reached the goal, are offered as the best.  Gives the bests taken,
    /// each with its step count, in order.
    pub fn merge(&mut self, found: &Vec<Found<WIDTH, SIZE>>, last: BitBug<WIDTH, SIZE>, reached: bool) -> (bests: Vec<(u64, BitBug<WIDTH, SIZE>)>)
        ensures
            final(self)@ == walk_merged(old(self)@, found_views(found@), last@, reached),
            scored_views(bests@) == walk_bests(old(self)@, found_views(found@), last@, reached),
    {
        let ghost start = self@;
        let ghost fv = found_views(found@);
        let mut bests: Vec<(u64, BitBug<WIDTH, SIZE>)> = Vec::new();
        let mut i: usize = 0;
        while i < found.len()
            invariant
                i <= found@.len(),
                fv == found_views(found@),
                self@ == merged(start, fv.take(i as int)),
                scored_views(bests@) == merged_bests(start, fv.take(i as int)),
            decreases found@.len() - i,
        {
            let ghost before = self@;
            let ghost bs = scored_views(bests@);
            proof {
                assert(fv.take(i + 1).drop_last() =~= fv.take(i as int));
                assert(fv.take(i + 1).last() == found@[i as int]@);
            }
            match &found[i] {
                Found::Share(b) => {
                    self.to_search.push(*b);
                    proof {
                        assert(views(self.to_search@) =~= before.stack.push(b@));
                        assert(scored_views(bests@) =~= bs + Seq::<(u64, BugModel)>::empty());
                    }
                },
                Found::Local(searcher, _) => {
                    let score = searcher.best_score();
                    let game = searcher.current_best();
                    if self.record(score, game) {
                        bests.push((score, game));
                        proof {
                            assert(scored_views(bests@) =~= bs + seq![(score, game@)]);
                        }
                    } else {
                        proof {
                            assert(scored_views(bests@) =~= bs + Seq::<(u64, BugModel)>::empty());
                        }
                    }
                },
            }
            i += 1;
        }
        proof {
            assert(fv.take(found@.len() as int) =~= fv);
        }
        let ghost bs = scored_views(bests@);
        if reached {
            if self.record(last.steps, last) {
                proof {
                    last.lemma_steps();
                }
                bests.push((last.steps, last));
                proof {
                    assert(scored_views(bests@) =~= bs + seq![(last.steps, last@)]);
                }
                return bests;
            }
            proof {
                last.lemma_steps();
            }
        }
        proof {
            assert(scored_views(bests@) =~= bs + Seq::<(u64, BugModel)>::empty());
        }
        bests
    }

    /// The highest step count recorded.
    pub fn best_score(&self) -> (r: u64)
        ensures
            r == self@.best_score,
    {
        self.best_score
    }

    /// The game with the highest step count recorded.
    pub fn current_best(&self) -> (r: BitBug<WIDTH, SIZE>)
        ensures
            r@ == self@.best,
    {
        self.current_best
    }
}

} // verus!
