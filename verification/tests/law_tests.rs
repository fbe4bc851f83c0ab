use bugrs::bug::bitbug::{BitBug, TileGrid};
use bugrs::bug::grid_spec::TILE_MAX;
use bugrs::generators::anneal::gen_with;

type Bug8 = BitBug<8, 64>;

fn pattern(seed: usize) -> Vec<Vec<bool>> {
    (0..6).map(|x| (0..6).map(|y| (x * 7 + y * 3 + seed) % 5 < 2).collect()).collect()
}

#[test]
fn start_and_goal_never_take_a_wall() {
    for seed in 0..5 {
        let mut b: Bug8 = gen_with(&pattern(seed));
        let before = b.tiles;
        assert!(!b.tiles.set_wall(1, 1));
        assert!(!b.tiles.set_wall(6, 6));
        assert!(b.tiles.get(1, 1) < TILE_MAX - 2);
        assert!(b.tiles.get(6, 6) < TILE_MAX - 2);
        for y in 0..8 {
            for x in 0..8 {
                assert_eq!(b.tiles.get(x, y), before.get(x, y));
            }
        }
    }
}

#[test]
fn picked_tiles_left_open_cannot_take_a_wall() {
    for seed in 0..5 {
        let p = pattern(seed);
        let b: Bug8 = gen_with(&p);
        for x in 1..7 {
            for y in 1..7 {
                if p[x - 1][y - 1] && b.tiles.get(x, y) < TILE_MAX - 2 {
                    let mut g: TileGrid<8, 64> = b.tiles;
                    assert!(!g.set_wall(x, y));
                }
            }
        }
    }
}

#[test]
fn bug_never_steps_onto_a_wall() {
    for seed in 0..5 {
        let mut b: Bug8 = gen_with(&pattern(seed));
        let mut n = 0;
        while !b.is_done() && b.can_take_step() && n < 1000 {
            b.take_step();
            let (x, y) = b.pos();
            assert!(1 <= x && x <= 6 && 1 <= y && y <= 6);
            assert!(b.tiles.get(x, y) < TILE_MAX - 2);
            n += 1;
        }
    }
}

#[test]
fn unseen_exactly_on_new_tiles() {
    let mut b: Bug8 = gen_with(&pattern(1));
    let mut seen = vec![b.pos()];
    while !b.is_done() {
        b.take_step();
        assert_eq!(b.unseen(), !seen.contains(&b.pos()));
        seen.push(b.pos());
    }
}
