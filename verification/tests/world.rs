use janlukas::grid::TagGrid;
use janlukas::pos::{GridPos, Pos};
use janlukas::world::{World, EMPTY, GEM, NO_INFO, OBSTACLE, STEP_SIZE};

/// A world of 1000 by 1000 cells with the obstacles of `at`, each widened
/// to its square.
fn world_with(at: &[(usize, usize)]) -> World {
    let mut world = World::new((1000, 1000));
    let mut local = TagGrid::new((1000, 1000), EMPTY);
    for &(x, y) in at {
        local.set(x, y, OBSTACLE);
    }
    world.incorporate(&local, GridPos::new(0, 0), 0);
    world
}

#[test]
fn tags_keep_their_values() {
    assert_eq!(NO_INFO, -1);
    assert_eq!(EMPTY, 0);
    assert_eq!(OBSTACLE, 1);
    assert_eq!(GEM, 2);
    assert_eq!(STEP_SIZE, 4);
}

#[test]
fn new_world_holds_no_information() {
    let world = World::new((8, 12));
    assert_eq!(world.shape(), (8, 12));
    for x in 0..8 {
        for y in 0..12 {
            assert_eq!(world.tag(GridPos::new(x, y)), Some(NO_INFO));
            assert!(!world.is_obstacle(GridPos::new(x, y)));
            assert!(!world.is_obstacle_or_out(GridPos::new(x, y)));
        }
    }
    assert_eq!(world.tag(GridPos::new(8, 0)), None);
    assert_eq!(world.tag(GridPos::new(0, 12)), None);
}

#[test]
fn empty_world_has_no_cells() {
    let world = World::new((0, 0));
    assert_eq!(world.shape(), (0, 0));
    assert!(!world.in_bounds(&GridPos::new(0, 0)));
    assert!(world.get_map().is_empty());
}

#[test]
fn in_bounds_is_strict() {
    let world = World::new((8, 12));
    assert!(world.in_bounds(&GridPos::new(0, 0)));
    assert!(world.in_bounds(&GridPos::new(7, 11)));
    assert!(!world.in_bounds(&GridPos::new(8, 11)));
    assert!(!world.in_bounds(&GridPos::new(7, 12)));
    assert!(!world.in_bounds(&GridPos::new(usize::MAX, 0)));
}

#[test]
fn out_of_bounds_is_no_obstacle_but_counts_as_out() {
    let world = world_with(&[(50, 50)]);
    assert!(!world.is_obstacle(GridPos::new(1000, 50)));
    assert!(!world.is_obstacle_coords(50, 1000));
    assert!(world.is_obstacle_or_out(GridPos::new(1000, 50)));
    assert!(world.is_obstacle_or_out(GridPos::new(50, 1000)));
    assert!(world.is_obstacle_or_out(GridPos::new(50, 50)));
    assert!(!world.is_obstacle_or_out(GridPos::new(60, 60)));
}

#[test]
fn obstacle_inflation() {
    let world = world_with(&[(50, 50)]);
    for x in 48..=52 {
        for y in 48..=52 {
            assert!(world.is_obstacle(GridPos::new(x, y)));
            assert!(world.is_obstacle_coords(x, y));
        }
    }
    for i in 47..=53 {
        assert!(!world.is_obstacle(GridPos::new(47, i)));
        assert!(!world.is_obstacle(GridPos::new(53, i)));
        assert!(!world.is_obstacle(GridPos::new(i, 47)));
        assert!(!world.is_obstacle(GridPos::new(i, 53)));
    }
}

#[test]
fn incorporate_writes_obstacles_only() {
    let mut world = World::new((16, 16));
    let mut local = TagGrid::new((16, 16), EMPTY);
    local.set(5, 5, GEM);
    local.set(9, 9, OBSTACLE);
    world.incorporate(&local, GridPos::new(0, 0), 0);
    let map = world.get_map();
    for x in 0..16 {
        for y in 0..16 {
            let painted = (7..=11).contains(&x) && (7..=11).contains(&y);
            assert_eq!(map[x][y], if painted { OBSTACLE } else { NO_INFO });
        }
    }
}

#[test]
fn incorporate_skips_the_margin() {
    let mut world = World::new((16, 16));
    let mut local = TagGrid::new((8, 8), EMPTY);
    for i in 0..8 {
        local.set(0, i, OBSTACLE);
        local.set(1, i, OBSTACLE);
        local.set(6, i, OBSTACLE);
        local.set(7, i, OBSTACLE);
        local.set(i, 0, OBSTACLE);
        local.set(i, 1, OBSTACLE);
        local.set(i, 6, OBSTACLE);
        local.set(i, 7, OBSTACLE);
    }
    world.incorporate(&local, GridPos::new(4, 4), 4);
    for x in 0..16 {
        for y in 0..16 {
            assert!(!world.is_obstacle(GridPos::new(x, y)));
        }
    }
}

#[test]
fn incorporate_anchors_the_local_map_at_the_observer() {
    let mut world = World::new((40, 40));
    let mut local = TagGrid::new((9, 9), EMPTY);
    local.set(4, 4, OBSTACLE);
    // The observer stands at (20, 12) and sees four cells far: the local
    // map begins at (16, 8), and its centre lies on the observer.
    world.incorporate(&local, GridPos::new(20, 12), 4);
    for x in 0..40 {
        for y in 0..40 {
            let painted = (18..=22).contains(&x) && (10..=14).contains(&y);
            assert_eq!(world.is_obstacle(GridPos::new(x, y)), painted);
        }
    }
}

#[test]
fn incorporate_clamps_the_anchor_at_the_edge() {
    let mut world = World::new((40, 40));
    let mut local = TagGrid::new((9, 9), EMPTY);
    local.set(2, 6, OBSTACLE);
    // The observer stands closer to the edge than it sees: the local map
    // begins at the edge.
    world.incorporate(&local, GridPos::new(1, 3), 4);
    for x in 0..40 {
        for y in 0..40 {
            let painted = x <= 4 && (4..=8).contains(&y);
            assert_eq!(world.is_obstacle(GridPos::new(x, y)), painted);
        }
    }
}

#[test]
fn incorporate_keeps_earlier_obstacles() {
    let mut world = World::new((40, 40));
    let mut first = TagGrid::new((40, 40), EMPTY);
    first.set(10, 10, OBSTACLE);
    world.incorporate(&first, GridPos::new(0, 0), 0);
    let second = TagGrid::new((40, 40), EMPTY);
    world.incorporate(&second, GridPos::new(0, 0), 0);
    assert!(world.is_obstacle(GridPos::new(10, 10)));
    assert!(world.is_obstacle(GridPos::new(8, 12)));
}

#[test]
fn a_small_local_map_has_no_interior() {
    let mut world = World::new((8, 8));
    let local = TagGrid::new((2, 2), OBSTACLE);
    world.incorporate(&local, GridPos::new(0, 0), 0);
    let local = TagGrid::new((4, 4), OBSTACLE);
    world.incorporate(&local, GridPos::new(0, 0), 0);
    for x in 0..8 {
        for y in 0..8 {
            assert!(!world.is_obstacle(GridPos::new(x, y)));
        }
    }
}

#[test]
fn free_neighbours_come_in_order() {
    let world = World::new((1000, 1000));
    let found = world.free_neighbours_of(&GridPos::new(100, 200));
    assert_eq!(
        found,
        vec![
            GridPos::new(104, 200),
            GridPos::new(96, 200),
            GridPos::new(100, 204),
            GridPos::new(100, 196),
        ]
    );
}

#[test]
fn free_neighbours_stay_in_bounds() {
    let world = World::new((8, 8));
    assert_eq!(
        world.free_neighbours_of(&GridPos::new(0, 0)),
        vec![GridPos::new(4, 0), GridPos::new(0, 4)]
    );
    assert_eq!(
        world.free_neighbours_of(&GridPos::new(3, 7)),
        vec![GridPos::new(7, 7), GridPos::new(3, 3)]
    );
    assert_eq!(
        world.free_neighbours_of(&GridPos::new(4, 4)),
        vec![GridPos::new(0, 4), GridPos::new(4, 0)]
    );
    for x in 0..8 {
        for y in 0..8 {
            for n in world.free_neighbours_of(&GridPos::new(x, y)) {
                assert!(world.in_bounds(&n));
            }
        }
    }
    assert!(world
        .free_neighbours_of(&GridPos::new(usize::MAX, usize::MAX))
        .is_empty());
}

#[test]
fn free_neighbours_leave_obstacles_out() {
    let world = world_with(&[(106, 200)]);
    // The square around (106, 200) covers (104, 200).
    let found = world.free_neighbours_of(&GridPos::new(100, 200));
    assert_eq!(
        found,
        vec![
            GridPos::new(96, 200),
            GridPos::new(100, 204),
            GridPos::new(100, 196),
        ]
    );
}

#[test]
fn closest_on_grid_snaps_to_the_centre_of_the_square() {
    assert_eq!(World::closest_on_grid(&Pos::new(0, 0)), Pos::new(2, 2));
    assert_eq!(World::closest_on_grid(&Pos::new(3, 4)), Pos::new(2, 6));
    assert_eq!(World::closest_on_grid(&Pos::new(7, 9)), Pos::new(6, 10));
    assert_eq!(World::closest_on_grid(&Pos::new(-5, -1)), Pos::new(-2, 2));
    assert_eq!(
        World::closest_on_grid(&Pos::new(i64::MAX, i64::MIN)),
        Pos::new(i64::MAX - 1, i64::MIN + 2)
    );
}

#[test]
fn get_map_copies_every_cell() {
    let world = world_with(&[(2, 2)]);
    let map = world.get_map();
    assert_eq!(map.len(), 1000);
    assert!(map.iter().all(|row| row.len() == 1000));
    assert_eq!(map[0][0], OBSTACLE);
    assert_eq!(map[4][4], OBSTACLE);
    assert_eq!(map[5][4], NO_INFO);
    assert_eq!(map[999][999], NO_INFO);
}

#[test]
fn tag_grid_reads_what_was_written() {
    let mut grid = TagGrid::new((3, 5), EMPTY);
    assert_eq!(grid.shape(), (3, 5));
    grid.set(2, 4, GEM);
    grid.set(0, 1, OBSTACLE);
    assert_eq!(grid.get(2, 4), Some(GEM));
    assert_eq!(grid.get(0, 1), Some(OBSTACLE));
    assert_eq!(grid.get(1, 0), Some(EMPTY));
    assert_eq!(grid.get(3, 0), None);
    assert_eq!(grid.get(0, 5), None);
}

#[test]
fn a_shape_fits_while_its_cells_fit_in_memory() {
    assert!(TagGrid::fits((0, 0)));
    assert!(TagGrid::fits((1000, 1000)));
    assert!(!TagGrid::fits((0, usize::MAX / 8)));
    let limit = (isize::MAX as usize) / 8;
    assert!(TagGrid::fits((limit, 1)));
    assert!(TagGrid::fits((1, limit)));
    assert!(TagGrid::fits((limit, 0)));
    assert!(!TagGrid::fits((limit + 1, 1)));
    assert!(!TagGrid::fits((limit + 1, 0)));
    assert!(!TagGrid::fits((limit / 2 + 1, 2)));
    assert!(!TagGrid::fits((usize::MAX, usize::MAX)));
}
