use bugrs::bug::bitbug::{decimal_text, BitBug, Direction, TileGrid};
use bugrs::bug::grid_spec::TILE_MAX;

type Grid6 = TileGrid<6, 30>;
type Bug6 = BitBug<6, 30>;

#[test]
fn decimal_text_of_counters() {
    assert_eq!(decimal_text(0), "0");
    assert_eq!(decimal_text(7), "7");
    assert_eq!(decimal_text(10), "10");
    assert_eq!(decimal_text(65535), "65535");
}

#[test]
fn reading_a_drawing_starts_at_its_first_line_break() {
    let drawing = String::from("\n######\n# ## #\n#    #\n#  # #\n######\n0");
    let g = Grid6::from(drawing);
    assert_eq!(g.to_string(), "\n######\n# ####\n# ## #\n#    #\n######\n6");
    assert_eq!(g.get(1, 1), 0);
    assert_eq!(g.get(2, 1), TILE_MAX - 1);
    assert_eq!(g.get(3, 2), TILE_MAX - 1);
    assert_eq!(g.get(4, 2), 0);
    assert_eq!(g.walls, 6);
}

#[test]
fn bug_read_from_a_drawing_starts_at_the_corner() {
    let b = Bug6::from(String::from("\n"));
    assert_eq!(b.pos(), (1, 1));
    assert_eq!(b.steps, 0);
    assert_eq!(b.to_string(), "\n######\n#    #\n#    #\n#    #\n######\n0");
}

#[test]
fn refused_wall_changes_no_tile() {
    let mut g = Grid6::default();
    let before = g;
    assert!(!g.set_wall(4, 3));
    for y in 0..5 {
        for x in 0..6 {
            assert_eq!(g.get(x, y), before.get(x, y));
        }
    }
    assert_eq!(g.walls, 1);
}

#[test]
fn request_on_a_wall_is_not_counted() {
    let mut g = Grid6::default();
    assert!(g.set_wall(2, 2));
    assert_eq!(g.walls, 1);
    assert!(g.set_wall(2, 2));
    assert_eq!(g.get(2, 2), TILE_MAX - 2);
    assert_eq!(g.walls, 1);
}

#[test]
fn set_and_get_a_tile() {
    let mut g = Grid6::default();
    g.set(3, 2, 42);
    assert_eq!(g.get(3, 2), 42);
    assert_eq!(g.get(2, 3), 0);
}

#[test]
fn wall_kinds_stay_apart_after_many_requests() {
    let mut g = TileGrid::<8, 64>::default();
    for y in 1..7 {
        for x in 1..7 {
            if (x * 3 + y * 5) % 4 != 0 {
                g.set_wall(x, y);
            }
        }
    }
    for y in 1..7usize {
        for x in 1..7usize {
            let v = g.get(x, y);
            if v >= TILE_MAX - 2 {
                for dy in 0..3usize {
                    for dx in 0..3usize {
                        if dx == 1 && dy == 1 {
                            continue;
                        }
                        let n = g.get(x + dx - 1, y + dy - 1);
                        if v == TILE_MAX {
                            assert_ne!(n, TILE_MAX - 1);
                        } else if v == TILE_MAX - 1 {
                            assert_ne!(n, TILE_MAX);
                        } else {
                            assert!(n < TILE_MAX - 1);
                        }
                    }
                }
            }
        }
    }
}

#[test]
fn bug_keeps_its_direction_on_a_tie() {
    let mut b = Bug6::default();
    b.take_step();
    assert_eq!(b.pos(), (1, 2));
    assert_eq!(b.tile_at_dir(&Direction::Down), 0);
    assert_eq!(b.tile_at_dir(&Direction::Right), 0);
    b.take_step();
    assert_eq!(b.pos(), (1, 3));
    assert_eq!(b.steps, 2);
}

#[test]
fn bug_can_step_inside_the_grid_only() {
    let b = Bug6::default();
    assert!(b.can_take_step());
    let mut g = Grid6::default();
    g.set(1, 1, TILE_MAX);
    let mut b2 = Bug6::default();
    b2.tiles = g;
    assert!(!b2.can_take_step());
}

#[test]
fn walk_on_a_fresh_grid_reaches_the_goal() {
    let mut b = Bug6::default();
    assert_eq!(b.simulate(), 5);
    assert!(b.is_done());
    assert_eq!(b.pos(), (4, 3));
    let mut b8 = BitBug::<8, 64>::default();
    assert_eq!(b8.simulate(), 10);
    assert!(b8.is_done());
}

#[test]
fn unseen_tile_before_and_after_a_visit() {
    let mut b = Bug6::default();
    assert!(b.unseen());
    b.take_step();
    assert!(b.unseen());
    assert_eq!(b.tile_at_dir(&Direction::Up), 1);
}

#[test]
fn wall_on_the_bug_grid() {
    let mut b = Bug6::default();
    assert!(b.set_wall(3, 2));
    assert_eq!(b.tiles.get(3, 2), TILE_MAX - 2);
    assert_eq!(b.tiles.walls, 1);
    assert_eq!(b.steps, 0);
}
