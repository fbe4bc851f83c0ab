use bugrs::bug::bitbug::{BitBug, Direction, TileGrid};
use bugrs::bug::grid_spec::TILE_MAX;

type Grid8 = TileGrid<8, 64>;
type Bug8 = BitBug<8, 64>;

#[test]
fn fresh_grid_is_drawn_with_walled_borders() {
    let g = Grid8::default();
    let expected = "\n########\n#      #\n#      #\n#      #\n#      #\n#      #\n#      #\n########\n0";
    assert_eq!(g.to_string(), expected);
}

#[test]
fn fresh_grid_border_kinds() {
    let g = Grid8::default();
    assert_eq!(g.get(0, 0), TILE_MAX);
    assert_eq!(g.get(7, 0), TILE_MAX - 1);
    assert_eq!(g.get(3, 0), TILE_MAX - 1);
    assert_eq!(g.get(3, 7), TILE_MAX);
    assert_eq!(g.get(0, 4), TILE_MAX);
    assert_eq!(g.get(7, 4), TILE_MAX - 1);
    assert_eq!(g.get(0, 7), TILE_MAX);
    assert_eq!(g.get(7, 7), TILE_MAX - 1);
    assert_eq!(g.get(3, 3), 0);
    assert_eq!(g.walls, 0);
}

#[test]
fn move_coordinates_in_each_direction() {
    assert_eq!(Direction::Left.move_coordinates((3, 4)), (2, 4));
    assert_eq!(Direction::Up.move_coordinates((3, 4)), (3, 3));
    assert_eq!(Direction::Down.move_coordinates((3, 4)), (3, 5));
    assert_eq!(Direction::Right.move_coordinates((3, 4)), (4, 4));
}

#[test]
fn wall_joining_both_borders_is_refused_but_counted() {
    let mut g = Grid8::default();
    assert!(!g.set_wall(1, 1));
    assert_eq!(g.get(1, 1), 0);
    assert_eq!(g.walls, 1);
}

#[test]
fn loose_wall_then_joined_to_left_border() {
    let mut g = Grid8::default();
    assert!(g.set_wall(3, 3));
    assert_eq!(g.get(3, 3), TILE_MAX - 2);
    assert!(g.set_wall(2, 2));
    assert_eq!(g.get(2, 2), TILE_MAX - 2);
    assert!(g.set_wall(1, 2));
    assert_eq!(g.get(1, 2), TILE_MAX);
    assert_eq!(g.get(2, 2), TILE_MAX);
    assert_eq!(g.get(3, 3), TILE_MAX);
    assert_eq!(g.walls, 3);
}

#[test]
fn wall_next_to_top_border_takes_its_kind() {
    let mut g = Grid8::default();
    assert!(g.set_wall(3, 1));
    assert_eq!(g.get(3, 1), TILE_MAX - 1);
}

#[test]
fn first_step_goes_down() {
    let mut b = Bug8::default();
    assert_eq!(b.pos(), (1, 1));
    assert!(!b.is_done());
    b.take_step();
    assert_eq!(b.pos(), (1, 2));
    assert_eq!(b.steps, 1);
    assert_eq!(b.tiles.get(1, 1), 1);
    assert!(b.unseen());
    assert_eq!(b.tile_at_dir(&Direction::Up), 1);
}
