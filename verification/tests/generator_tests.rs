use bugrs::bug::bitbug::BitBug;
use bugrs::bug::grid_spec::TILE_MAX;
use bugrs::generators::anneal::{anneal_with, gen_random, gen_with, Annealer};
use bugrs::util::parse_usize_const;

type Bug6 = BitBug<6, 30>;

fn picks(set: &[(usize, usize)]) -> Vec<Vec<bool>> {
    let mut p = vec![vec![false; 3]; 4];
    for &(x, y) in set {
        p[x - 1][y - 1] = true;
    }
    p
}

#[test]
fn parse_reads_the_last_byte_first() {
    assert_eq!(parse_usize_const("123"), 321);
    assert_eq!(parse_usize_const("7"), 7);
    assert_eq!(parse_usize_const("10"), 1);
    assert_eq!(parse_usize_const(""), 0);
}

#[test]
fn no_picks_give_a_fresh_grid() {
    let b: Bug6 = gen_with(&picks(&[]));
    assert_eq!(b.to_string(), Bug6::default().to_string());
    assert_eq!(b.pos(), (1, 1));
}

#[test]
fn every_pick_set() {
    let all = vec![vec![true; 3]; 4];
    let b: Bug6 = gen_with(&all);
    assert_eq!(b.to_string(), "\n######\n#    #\n#### #\n#### #\n######\n6");
}

#[test]
fn a_refused_pick_is_not_counted() {
    let b: Bug6 = gen_with(&picks(&[(2, 2), (4, 1)]));
    assert_eq!(b.to_string(), "\n######\n#   ##\n# #  #\n#    #\n######\n2");
    assert_eq!(b.tiles.get(2, 2), TILE_MAX - 2);
    let c: Bug6 = gen_with(&picks(&[(1, 1)]));
    assert_eq!(c.tiles.walls, 0);
}

#[test]
fn random_grid_keeps_its_borders() {
    let b: Bug6 = gen_random();
    assert_eq!(b.pos(), (1, 1));
    assert_eq!(b.steps, 0);
    for x in 0..6 {
        assert!(b.tiles.get(x, 0) >= TILE_MAX - 1);
        assert!(b.tiles.get(x, 4) >= TILE_MAX - 1);
    }
    for y in 0..5 {
        assert!(b.tiles.get(0, y) >= TILE_MAX - 1);
        assert!(b.tiles.get(5, y) >= TILE_MAX - 1);
    }
    assert!(b.tiles.walls <= 12);
    for y in 1..4usize {
        for x in 1..5usize {
            let v = b.tiles.get(x, y);
            for (dx, dy) in [(0, 0), (1, 0), (2, 0), (0, 1), (2, 1), (0, 2), (1, 2), (2, 2)] {
                let n = b.tiles.get(x + dx - 1, y + dy - 1);
                if v == TILE_MAX {
                    assert_ne!(n, TILE_MAX - 1);
                }
                if v == TILE_MAX - 1 {
                    assert_ne!(n, TILE_MAX);
                }
            }
        }
    }
}

#[test]
fn anneal_without_flips_rebuilds_the_walls() {
    let all = vec![vec![true; 3]; 4];
    let b: Bug6 = gen_with(&all);
    let r = anneal_with(b, &picks(&[])).unwrap();
    assert_eq!(r.to_string(), b.to_string());
}

#[test]
fn anneal_flips_toggle_walls() {
    let b: Bug6 = gen_with(&picks(&[(2, 2), (4, 1)]));
    let r = anneal_with(b, &picks(&[(2, 2), (3, 3)])).unwrap();
    assert_eq!(r.to_string(), "\n######\n#   ##\n#    #\n#  # #\n######\n2");
    assert_eq!(r.tiles.get(3, 3), TILE_MAX);
}

#[test]
fn anneal_gives_up_on_a_refused_wall() {
    assert!(anneal_with(Bug6::default(), &picks(&[(1, 1)])).is_none());
}

#[test]
fn annealer_scores_its_start() {
    let mut a = Annealer::from(Bug6::default());
    assert_eq!(a.best_score(), 5);
    assert_eq!(a.true_score(), 5);
    assert_eq!(a.best_bug().steps, 0);
    let g: Bug6 = gen_with(&picks(&[(2, 2)]));
    assert!(a.consider(g, 9, false));
    assert_eq!(a.true_score(), 9);
    assert_eq!(a.best_score(), 5);
    assert!(!a.consider(Bug6::default(), 3, true));
    assert_eq!(a.best_score(), 3);
    assert_eq!(a.true_score(), 9);
    a.restart();
    assert_eq!(a.best_score(), 9);
    assert_eq!(a.best_bug().tiles.get(2, 2), TILE_MAX - 2);
}
