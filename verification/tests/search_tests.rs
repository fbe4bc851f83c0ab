use bugrs::bug::bitbug::BitBug;
use bugrs::search::multisearch::{explore, Found, MSearcher, SHARE_LIMIT};
use bugrs::search::search::{is_playable, SearchStep, Searcher};

type Bug6 = BitBug<6, 30>;

#[test]
fn first_round_records_the_walk_and_adds_its_branches() {
    let mut s = Searcher::new(Bug6::default());
    assert_eq!(s.best_score(), 0);
    assert_eq!(s.search_last(), Some(SearchStep::Recorded));
    assert_eq!(s.best_score(), 5);
    assert_eq!(s.to_search.len(), 4);
    assert_eq!(s.current_best().pos(), (4, 3));
}

#[test]
fn full_search_finds_the_longest_walk() {
    let mut s = Searcher::new(Bug6::default());
    let records = s.search_all();
    let scores: Vec<u64> = records.iter().map(|b| b.steps).collect();
    assert_eq!(scores, vec![5, 9, 9, 9, 13, 13]);
    assert!(records.iter().all(|b| b.is_done()));
    assert_eq!(s.best_score(), 13);
    assert_eq!(s.current_best().to_string(), "\n######\n#   ##\n# #  #\n#  # #\n######\n3");
    assert!(s.to_search.is_empty());
    assert_eq!(s.search_last(), None);
}

#[test]
fn full_search_on_small_grids() {
    let mut s = Searcher::new(BitBug::<5, 25>::default());
    s.search_all();
    assert_eq!(s.best_score(), 8);
    let mut s = Searcher::new(BitBug::<4, 16>::default());
    s.search_all();
    assert_eq!(s.best_score(), 2);
}

#[test]
fn explore_gives_each_branch() {
    let (found, last, reached) = explore(Bug6::default());
    assert!(reached);
    assert_eq!(last.steps, 5);
    assert_eq!(found.len(), 4);
    for (i, f) in found.iter().enumerate() {
        match f {
            Found::Share(b) => {
                assert_eq!(b.steps, i as u64);
                assert!(b.steps <= SHARE_LIMIT);
            }
            Found::Local(_, _) => panic!("short games are shared"),
        }
    }
}

#[test]
fn long_branches_are_searched_on_the_spot() {
    let mut start = Bug6::default();
    start.steps = 20;
    let (found, last, reached) = explore(start);
    assert!(reached);
    assert_eq!(last.steps, 25);
    assert_eq!(found.len(), 4);
    for f in found.iter() {
        match f {
            Found::Local(searcher, records) => {
                assert!(searcher.to_search.is_empty());
                assert!(searcher.best_score() > SHARE_LIMIT);
                assert_eq!(records.last().map(|b| b.steps), Some(searcher.best_score()));
            }
            Found::Share(_) => panic!("a long game is searched locally"),
        }
    }
}

#[test]
fn shared_search_with_one_worker() {
    let mut shared = MSearcher::new(Bug6::default());
    let mut scores = Vec::new();
    while let Some(game) = shared.take() {
        assert!(is_playable(&game));
        let (found, last, reached) = explore(game);
        for (s, _) in shared.merge(&found, last, reached) {
            scores.push(s);
        }
    }
    assert_eq!(scores, vec![5, 9, 9, 9, 13, 13]);
    assert_eq!(shared.best_score(), 13);
    assert_eq!(shared.current_best().steps, 13);
}

#[test]
fn shared_search_with_local_searches() {
    let mut shared = MSearcher::new(BitBug::<7, 42>::default());
    let mut scores = Vec::new();
    while let Some(game) = shared.take() {
        let (found, last, reached) = explore(game);
        for (s, _) in shared.merge(&found, last, reached) {
            scores.push(s);
        }
    }
    assert_eq!(scores, vec![7, 13, 23, 25, 25, 29, 29]);
    assert_eq!(shared.best_score(), 29);
}

#[test]
fn shared_best_is_offered_only_when_at_least_as_long() {
    let mut shared = MSearcher::new(Bug6::default());
    let mut game = Bug6::default();
    game.simulate();
    assert!(shared.record(5, game));
    assert!(!shared.record(4, Bug6::default()));
    assert_eq!(shared.best_score(), 5);
    assert!(shared.record(5, Bug6::default()));
    assert_eq!(shared.current_best().steps, 0);
    assert!(shared.take().is_some());
    assert!(shared.take().is_none());
}

#[test]
fn playable_games() {
    assert!(is_playable(&Bug6::default()));
    let mut b = Bug6::default();
    b.tiles.set(0, 2, 0);
    assert!(!is_playable(&b));
    assert!(!is_playable(&BitBug::<1, 30>::default()));
}
