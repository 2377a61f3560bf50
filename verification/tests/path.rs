use janlukas::grid::TagGrid;
use janlukas::metric::{Cost, Metric, NO_COST, UNREACHED};
use janlukas::path::bresenham::path_is_blocked;
use janlukas::path::theta_star::ThetaStar;
use janlukas::path::{manhattan_distance, Path};
use janlukas::pos::{GridPos, IntoPos, Pos};
use janlukas::world::{World, EMPTY, OBSTACLE};
use nalgebra as na;
use nalgebra::Norm;

/// A point of the plane.
#[derive(Clone, Copy, Debug, PartialEq)]
struct WorldPos(na::Point2<f64>);

impl WorldPos {
    fn new(x: f64, y: f64) -> Self {
        WorldPos(na::Point2::new(x, y))
    }
}

impl IntoPos<Pos> for WorldPos {
    fn into_pos(self) -> Pos {
        Pos::new(self.0.x as i64, self.0.y as i64)
    }
}

impl IntoPos<WorldPos> for Pos {
    fn into_pos(self) -> WorldPos {
        WorldPos::new(self.x as f64, self.y as f64)
    }
}

/// The key of a cost: the bits of a finite cost that is not negative are
/// ordered as the costs are.
fn key_of(cost: f64) -> Cost {
    if cost >= 0.0 && cost.is_finite() {
        cost.to_bits()
    } else {
        UNREACHED
    }
}

fn cost_of(key: Cost) -> f64 {
    if key == UNREACHED {
        f64::INFINITY
    } else {
        f64::from_bits(key)
    }
}

fn euclidean_distance(a: &Pos, b: &Pos) -> f64 {
    na::EuclideanNorm {}.norm(&na::Vector2::new((a.x - b.x) as f64, (a.y - b.y) as f64))
}

/// Euclidean lengths, for an agent that moves `step` per tick.
struct Euclid {
    step: f64,
}

impl Metric for Euclid {
    type Point = WorldPos;

    fn add_distance(&self, cost: Cost, from: &Pos, to: &Pos) -> Cost {
        key_of(cost_of(cost) + euclidean_distance(from, to))
    }

    fn within_one_step(&self, a: &WorldPos, b: &WorldPos) -> bool {
        na::EuclideanNorm {}.norm(&(a.0 - b.0)).abs() < self.step
    }
}

/// A metric under which every move is free.
struct Flat;

impl Metric for Flat {
    type Point = WorldPos;

    fn add_distance(&self, cost: Cost, _from: &Pos, _to: &Pos) -> Cost {
        cost
    }

    fn within_one_step(&self, _a: &WorldPos, _b: &WorldPos) -> bool {
        false
    }
}

/// A metric under which nothing can be reached.
struct Endless;

impl Metric for Endless {
    type Point = WorldPos;

    fn add_distance(&self, _cost: Cost, _from: &Pos, _to: &Pos) -> Cost {
        UNREACHED
    }

    fn within_one_step(&self, _a: &WorldPos, _b: &WorldPos) -> bool {
        false
    }
}

const TICK: Euclid = Euclid { step: 1.0 / 30.0 };

/// A world of 1000 by 1000 cells with a square of obstacles around each
/// cell of `at`.
fn world_with(at: &[(usize, usize)]) -> World {
    let mut world = World::new((1000, 1000));
    let mut local = TagGrid::new((1000, 1000), EMPTY);
    for &(x, y) in at {
        local.set(x, y, OBSTACLE);
    }
    world.incorporate(&local, GridPos::new(0, 0), 0);
    world
}

/// The world with a wall over the columns 500 to 504 and the rows 0 to 500.
fn walled_world() -> World {
    let wall: Vec<(usize, usize)> = (2..=498).map(|y| (502, y)).collect();
    world_with(&wall)
}

/// The length of the way from `start` over the waypoints of `route`, which
/// lists them from the last to the first.
fn length_of(start: Pos, route: &[Pos]) -> f64 {
    let mut at = start;
    let mut sum = 0.0;
    for p in route.iter().rev() {
        sum += euclidean_distance(&at, p);
        at = *p;
    }
    sum
}

/// Checks what holds of every route: it ends at the target, every
/// waypoint is a free cell on the lattice of the start, and every waypoint
/// sees the next.
fn assert_is_route(world: &World, start: Pos, target: Pos, route: &[Pos]) {
    assert!(!route.is_empty());
    assert_eq!(route[0], target);
    for p in route {
        assert_ne!(*p, start);
        assert!(p.x >= 0 && p.y >= 0);
        assert!(!world.is_obstacle_or_out(GridPos::new(p.x as usize, p.y as usize)));
        assert_eq!((p.x - start.x) % 4, 0);
        assert_eq!((p.y - start.y) % 4, 0);
    }
    for pair in route.windows(2) {
        assert!(!path_is_blocked(&pair[0], &pair[1], world));
        assert!(!path_is_blocked(&pair[1], &pair[0], world));
    }
}

#[test]
fn manhattan_distance_sums_the_signed_differences() {
    assert_eq!(manhattan_distance(&Pos::new(7, 9), &Pos::new(2, 3)), 11);
    assert_eq!(manhattan_distance(&Pos::new(2, 3), &Pos::new(7, 9)), -11);
    assert_eq!(manhattan_distance(&Pos::new(7, 3), &Pos::new(2, 9)), -1);
    assert_eq!(manhattan_distance(&Pos::new(-4, 0), &Pos::new(-4, 0)), 0);
}

#[test]
fn cost_keys_are_ordered_as_costs() {
    let costs = [0.0, 1e-300, 0.5, 1.0, 4.0, 5.656854249492381, 1e9, 1e300, f64::INFINITY];
    for pair in costs.windows(2) {
        assert!(key_of(pair[0]) < key_of(pair[1]));
    }
    assert_eq!(key_of(0.0), NO_COST);
    assert_eq!(key_of(f64::INFINITY), UNREACHED);
    assert_eq!(key_of(f64::NAN), UNREACHED);
    assert_eq!(cost_of(key_of(12.25)), 12.25);
}

#[test]
fn empty_world_has_a_straight_route() {
    let world = World::new((1000, 1000));
    let mut search = ThetaStar::new(&world);
    let start = Pos::new(4, 4);
    let target = Pos::new(900, 100);
    let route = search.find_path(&start, &target, &world, &TICK);
    assert_eq!(route, Some(vec![target]));
}

#[test]
fn length_on_an_empty_grid_is_close_to_the_distance() {
    let world = World::new((1000, 1000));
    let mut search = ThetaStar::new(&world);
    let start = Pos::new(8, 12);
    for target in [
        Pos::new(900, 100),
        Pos::new(12, 972),
        Pos::new(0, 0),
        Pos::new(996, 996),
        Pos::new(488, 16),
        Pos::new(12, 12),
    ] {
        let route = search.find_path(&start, &target, &world, &TICK).unwrap();
        assert_is_route(&world, start, target, &route);
        let straight = euclidean_distance(&start, &target);
        assert!(length_of(start, &route) < 1.000001 * straight + 1e-9);
        assert!(length_of(start, &route) >= straight - 1e-9);
    }
}

#[test]
fn route_goes_around_a_wall() {
    let world = walled_world();
    let mut search = ThetaStar::new(&world);
    let start = Pos::new(100, 100);
    let target = Pos::new(900, 100);
    let route = search.find_path(&start, &target, &world, &TICK).unwrap();
    assert_is_route(&world, start, target, &route);
    assert!(route.len() >= 2);
    assert!(route.iter().any(|p| p.y > 500));
    // No shorter than the way over the two upper corners of the wall.
    let corners = [Pos::new(900, 100), Pos::new(505, 501), Pos::new(499, 501)];
    assert!(length_of(start, &route) >= length_of(start, &corners) - 1e-9);
    assert!(length_of(start, &route) < 1.02 * length_of(start, &corners));
}

#[test]
fn every_waypoint_sees_the_next() {
    let world = world_with(&[
        (100, 100),
        (104, 100),
        (108, 100),
        (112, 104),
        (200, 160),
        (200, 164),
        (200, 168),
        (204, 172),
        (150, 130),
        (154, 126),
    ]);
    let mut search = ThetaStar::new(&world);
    for &(s, t) in &[
        ((60, 60), (240, 200)),
        ((240, 200), (60, 60)),
        ((96, 92), (212, 180)),
        ((2, 3), (998, 999)),
    ] {
        let start = Pos::new(s.0, s.1);
        let target = Pos::new(t.0, t.1);
        let route = search.find_path(&start, &target, &world, &TICK).unwrap();
        assert_is_route(&world, start, target, &route);
    }
}

#[test]
fn target_out_of_bounds_has_no_route() {
    let world = World::new((1000, 1000));
    let mut search = ThetaStar::new(&world);
    let start = Pos::new(4, 4);
    for target in [
        Pos::new(2000, 2000),
        Pos::new(1000, 4),
        Pos::new(4, 1000),
        Pos::new(-4, 4),
        Pos::new(4, -4),
    ] {
        assert_eq!(search.find_path(&start, &target, &world, &TICK), None);
    }
}

#[test]
fn target_off_the_lattice_has_no_route() {
    let world = World::new((1000, 1000));
    let mut search = ThetaStar::new(&world);
    let start = Pos::new(4, 4);
    assert_eq!(search.find_path(&start, &Pos::new(901, 100), &world, &TICK), None);
    assert_eq!(search.find_path(&start, &Pos::new(900, 102), &world, &TICK), None);
}

#[test]
fn start_is_no_target() {
    let world = World::new((1000, 1000));
    let mut search = ThetaStar::new(&world);
    let start = Pos::new(40, 40);
    assert_eq!(search.find_path(&start, &start, &world, &TICK), None);
}

#[test]
fn target_in_an_obstacle_has_no_route() {
    let world = world_with(&[(100, 98)]);
    let mut search = ThetaStar::new(&world);
    let start = Pos::new(4, 4);
    assert_eq!(search.find_path(&start, &Pos::new(100, 100), &world, &TICK), None);
    assert_eq!(search.find_path(&start, &Pos::new(100, 96), &world, &TICK), None);
    assert!(search.find_path(&start, &Pos::new(100, 92), &world, &TICK).is_some());
}

#[test]
fn walled_in_target_has_no_route() {
    // A ring of obstacles around (200, 200).
    let mut ring = Vec::new();
    for i in (180..=220).step_by(2) {
        ring.push((i, 180));
        ring.push((i, 220));
        ring.push((180, i));
        ring.push((220, i));
    }
    let world = world_with(&ring);
    let mut search = ThetaStar::new(&world);
    let inside = Pos::new(200, 200);
    let outside = Pos::new(100, 100);
    assert_eq!(search.find_path(&outside, &inside, &world, &TICK), None);
    assert_eq!(search.find_path(&inside, &outside, &world, &TICK), None);
    let route = search.find_path(&inside, &Pos::new(208, 192), &world, &TICK).unwrap();
    assert_is_route(&world, inside, Pos::new(208, 192), &route);
}

#[test]
fn a_search_forgets_the_one_before() {
    let world = walled_world();
    let mut search = ThetaStar::new(&world);
    let start = Pos::new(100, 100);
    let first = search.find_path(&start, &Pos::new(900, 100), &world, &TICK);
    let near = search.find_path(&start, &Pos::new(104, 100), &world, &TICK);
    assert_eq!(near, Some(vec![Pos::new(104, 100)]));
    let again = search.find_path(&start, &Pos::new(900, 100), &world, &TICK);
    assert_eq!(first, again);
    search.clear();
    assert_eq!(first, search.find_path(&start, &Pos::new(900, 100), &world, &TICK));
}

#[test]
fn any_metric_gives_a_route_or_none() {
    let world = walled_world();
    let mut search = ThetaStar::new(&world);
    let start = Pos::new(100, 100);
    let target = Pos::new(900, 100);
    assert_eq!(search.find_path(&start, &target, &world, &Endless), None);
    let route = search.find_path(&start, &target, &world, &Flat).unwrap();
    assert_is_route(&world, start, target, &route);
}

#[test]
fn empty_world_straight_shot() {
    let world = World::new((1000, 1000));
    let mut path: Path<WorldPos> = Path::new(&world);
    path.set_target(WorldPos::new(900.0, 100.0));
    let next = path.next(WorldPos::new(4.0, 4.0), &world, &TICK);
    assert_eq!(next, Some(WorldPos::new(900.0, 100.0)));
}

#[test]
fn single_wall_detour() {
    let world = walled_world();
    let mut path: Path<WorldPos> = Path::new(&world);
    path.set_target(WorldPos::new(900.0, 100.0));
    let next = path.next(WorldPos::new(100.0, 100.0), &world, &TICK).unwrap();
    assert!(next.0.y > 500.0);
}

#[test]
fn target_out_of_bounds() {
    let world = World::new((1000, 1000));
    let mut path: Path<WorldPos> = Path::new(&world);
    path.set_target(WorldPos::new(2000.0, 2000.0));
    assert_eq!(path.next(WorldPos::new(4.0, 4.0), &world, &TICK), None);
}

#[test]
fn goal_reached() {
    let world = World::new((1000, 1000));
    let mut path: Path<WorldPos> = Path::new(&world);
    path.set_target(WorldPos::new(10.0, 10.0));
    let wide = Euclid { step: 0.6 };
    assert_eq!(path.next(WorldPos::new(9.5, 10.0), &world, &wide), None);
    let narrow = Euclid { step: 0.5 };
    assert!(path.next(WorldPos::new(9.5, 10.0), &world, &narrow).is_none());
}

#[test]
fn incremental_follow() {
    let world = world_with(&[(100, 2), (100, 6), (100, 10), (100, 14), (100, 18)]);
    let mut path: Path<WorldPos> = Path::new(&world);
    let target = WorldPos::new(200.0, 0.0);
    path.set_target(target);
    let start = WorldPos::new(0.0, 0.0);
    let first = path.next(start, &world, &TICK).unwrap();
    assert_ne!(first, target);
    assert!(first.0.y > 20.0);
    // Not yet there: the same waypoint again.
    let on_the_way = WorldPos::new(first.0.x / 2.0, first.0.y / 2.0);
    assert_eq!(path.next(on_the_way, &world, &TICK), Some(first));
    // There: the waypoint past it.
    let second = path.next(first, &world, &TICK).unwrap();
    assert_ne!(second, first);
    assert!(second.0.x > first.0.x);
    let mut at = second;
    let mut last = second;
    for _ in 0..8 {
        match path.next(at, &world, &TICK) {
            None => break,
            Some(next) => {
                assert!(next.0.x > at.0.x || next == target);
                last = next;
                at = next;
            }
        }
    }
    assert_eq!(last, target);
    assert_eq!(path.next(target, &world, &TICK), None);
}

#[test]
fn the_target_stays_exact() {
    let world = World::new((1000, 1000));
    let mut path: Path<WorldPos> = Path::new(&world);
    let target = WorldPos::new(400.75, 200.125);
    path.set_target(target);
    let next = path.next(WorldPos::new(0.5, 0.25), &world, &TICK);
    assert_eq!(next, Some(target));
}

#[test]
fn set_target_twice_is_set_target_once() {
    let world = walled_world();
    let target = WorldPos::new(900.0, 100.0);
    let start = WorldPos::new(100.0, 100.0);
    let mut once: Path<WorldPos> = Path::new(&world);
    once.set_target(target);
    let mut twice: Path<WorldPos> = Path::new(&world);
    twice.set_target(target);
    twice.set_target(target);
    assert_eq!(once.recompute_in(), twice.recompute_in());
    let a = once.next(start, &world, &TICK);
    let b = twice.next(start, &world, &TICK);
    assert!(a.is_some());
    assert_eq!(a, b);
}

#[test]
fn set_target_plans_anew() {
    let world = World::new((1000, 1000));
    let mut path: Path<WorldPos> = Path::new(&world);
    let start = WorldPos::new(4.0, 4.0);
    path.set_target(WorldPos::new(900.0, 100.0));
    assert_eq!(path.recompute_in(), 0);
    assert_eq!(path.next(start, &world, &TICK), Some(WorldPos::new(900.0, 100.0)));
    assert_eq!(path.recompute_in(), -1);
    path.set_target(WorldPos::new(100.0, 900.0));
    assert_eq!(path.recompute_in(), 0);
    assert_eq!(path.next(start, &world, &TICK), Some(WorldPos::new(100.0, 900.0)));
}

#[test]
fn a_new_obstacle_is_seen_when_the_route_is_planned_anew() {
    let mut world = World::new((1000, 1000));
    let mut path: Path<WorldPos> = Path::new(&world);
    let target = WorldPos::new(200.0, 100.0);
    let start = WorldPos::new(0.0, 100.0);
    path.set_target(target);
    assert_eq!(path.next(start, &world, &TICK), Some(target));
    let mut local = TagGrid::new((1000, 1000), EMPTY);
    for y in (82..=118).step_by(4) {
        local.set(100, y, OBSTACLE);
    }
    world.incorporate(&local, GridPos::new(0, 0), 0);
    // The route in hand is kept as it is.
    assert_eq!(path.next(start, &world, &TICK), Some(target));
    // One more turn with it, then a new one.
    path.recompute_in_one_turn();
    assert_eq!(path.recompute_in(), 1);
    assert_eq!(path.next(start, &world, &TICK), Some(target));
    assert_eq!(path.recompute_in(), 0);
    let around = path.next(start, &world, &TICK).unwrap();
    assert_ne!(around, target);
    assert!((around.0.y - 100.0).abs() > 20.0);
}

#[test]
fn clear_path_plans_anew_at_once() {
    let mut world = World::new((1000, 1000));
    let mut path: Path<WorldPos> = Path::new(&world);
    let target = WorldPos::new(200.0, 100.0);
    let start = WorldPos::new(0.0, 100.0);
    path.set_target(target);
    assert_eq!(path.next(start, &world, &TICK), Some(target));
    let mut local = TagGrid::new((1000, 1000), EMPTY);
    for y in (82..=118).step_by(4) {
        local.set(100, y, OBSTACLE);
    }
    world.incorporate(&local, GridPos::new(0, 0), 0);
    path.clear_path();
    let around = path.next(start, &world, &TICK).unwrap();
    assert_ne!(around, target);
}

#[test]
fn no_route_gives_no_waypoint() {
    let world = world_with(&[(200, 200)]);
    let mut path: Path<WorldPos> = Path::new(&world);
    path.set_target(WorldPos::new(200.0, 200.0));
    assert_eq!(path.next(WorldPos::new(4.0, 4.0), &world, &TICK), None);
    assert_eq!(path.next(WorldPos::new(4.0, 4.0), &world, &TICK), None);
}

#[test]
fn a_new_follower_aims_at_the_origin() {
    let world = World::new((1000, 1000));
    let mut path: Path<WorldPos> = Path::new(&world);
    assert_eq!(path.recompute_in(), 0);
    assert_eq!(
        path.next(WorldPos::new(40.0, 80.0), &world, &TICK),
        Some(WorldPos::new(0.0, 0.0))
    );
    assert_eq!(path.next(WorldPos::new(0.0, 0.0), &world, &TICK), None);
}

#[test]
fn at_the_goal_nothing_else_is_asked() {
    // Within one step of the target the agent may stand anywhere, out of
    // bounds too: nothing is planned and nothing is counted.
    let world = World::new((1000, 1000));
    let mut path: Path<WorldPos> = Path::new(&world);
    path.set_target(WorldPos::new(-5.0, -5.0));
    let wide = Euclid { step: 1.0 };
    assert_eq!(path.recompute_in(), 0);
    assert_eq!(path.next(WorldPos::new(-5.5, -5.0), &world, &wide), None);
    assert_eq!(path.recompute_in(), 0);
    assert!(!path.has_route());
}

#[test]
fn a_target_out_of_bounds_asks_nothing_of_the_start() {
    let world = World::new((1000, 1000));
    let mut search = ThetaStar::new(&world);
    assert_eq!(
        search.find_path(&Pos::new(-4, 5000), &Pos::new(2000, 2000), &world, &TICK),
        None
    );
    let mut path: Path<WorldPos> = Path::new(&world);
    path.set_target(WorldPos::new(2000.0, 2000.0));
    assert_eq!(path.next(WorldPos::new(-40.0, 4.0), &world, &TICK), None);
    assert_eq!(path.recompute_in(), -1);
}

#[test]
fn a_kept_route_asks_nothing_of_the_start() {
    let world = world_with(&[(100, 2), (100, 6), (100, 10), (100, 14), (100, 18)]);
    let mut path: Path<WorldPos> = Path::new(&world);
    path.set_target(WorldPos::new(200.0, 0.0));
    let first = path.next(WorldPos::new(0.0, 0.0), &world, &TICK).unwrap();
    assert!(path.has_route());
    // The agent has strayed out of the world; the route in hand is kept.
    assert_eq!(path.next(WorldPos::new(-3.0, 8.0), &world, &TICK), Some(first));
}

#[test]
fn a_steady_metric_finds_every_target_in_reach() {
    let world = walled_world();
    let mut search = ThetaStar::new(&world);
    let start = Pos::new(100, 100);
    for target in [Pos::new(900, 100), Pos::new(104, 100), Pos::new(0, 996), Pos::new(508, 0)] {
        let route = search.find_path(&start, &target, &world, &Flat).unwrap();
        assert_is_route(&world, start, target, &route);
        let route = search.find_path(&start, &target, &world, &TICK).unwrap();
        assert_is_route(&world, start, target, &route);
    }
}
