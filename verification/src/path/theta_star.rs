//! Theta*: a search over the lattice of the world whose routes may cut
//! across cells wherever one waypoint sees the next.

use crate::grid::lemma_shape_fits;
use crate::metric::{is_steady, prices, Cost, Metric, NO_COST, UNREACHED};
use crate::path::bresenham::{
    high_cell, high_hit, lemma_line_blocked_symmetric, line_blocked, low_cell, low_hit,
    minor_steps, path_is_blocked, span,
};
use crate::pos::{Coord, IntoPos, Pos};
use crate::pos_map::PosMap;
use crate::priority::{is_cheapest, PriorityQueue};
use crate::world::{cells_of, one_step_apart, World, STEP_SIZE};
use vstd::arithmetic::div_mod::{
    lemma_fundamental_div_mod,
    lemma_fundamental_div_mod_converse,
    lemma_mod_bound,
};
use vstd::multiset::Multiset;
use vstd::prelude::*;

verus! {

/// `p` is a cell of `world`.
pub open spec fn cell_inside(world: World, p: Pos) -> bool {
    world.inside(p.x as int, p.y as int)
}

/// `p` is a cell of `world` and holds no obstacle.
pub open spec fn cell_free(world: World, p: Pos) -> bool {
    world.free(p.x as int, p.y as int)
}

/// No cell of `world` holds an obstacle.
pub open spec fn obstacle_free(world: World) -> bool {
    forall|x: int, y: int| !#[trigger] world.blocked(x, y)
}

/// `q` is one of the four lattice neighbours of `p`.
pub open spec fn is_step(p: Pos, q: Pos) -> bool {
    one_step_apart(p.x as int, p.y as int, q.x as int, q.y as int)
}

/// `walk` goes from `start` through free cells, one lattice step at a
/// time; `start` itself is not part of it.
pub open spec fn is_walk(world: World, start: Pos, walk: Seq<Pos>) -> bool {
    forall|i: int| 0 <= i < walk.len() ==> #[trigger] step_at(world, start, walk, i)
}

/// The cell number `i` of `walk` is free and one step away from the cell
/// before it, which for the first is `start`.
pub open spec fn step_at(world: World, start: Pos, walk: Seq<Pos>, i: int) -> bool {
    cell_free(world, walk[i]) && is_step(
        if i == 0 {
            start
        } else {
            walk[i - 1]
        },
        walk[i],
    )
}

/// `walk` is a walk from `start` that ends at `p`.
pub open spec fn walk_to(world: World, start: Pos, walk: Seq<Pos>, p: Pos) -> bool {
    walk.len() > 0 && is_walk(world, start, walk) && walk.last() == p
}

/// `p` can be reached from `start` over the lattice: it is `start`, or a
/// walk from `start` ends at it.
pub open spec fn reachable(world: World, start: Pos, p: Pos) -> bool {
    p == start || exists|walk: Seq<Pos>| #[trigger] walk_to(world, start, walk, p)
}

/// A straight move from `from` to `to` is a leg of a route: the two are
/// lattice neighbours, or no obstacle lies on the line between them.
pub open spec fn is_leg(world: World, from: Pos, to: Pos) -> bool {
    is_step(from, to) || !line_blocked(from, to, world)
}

/// The move to the waypoint number `i` of `route` from the one before it,
/// which stands behind it in `route`, is a leg.
pub open spec fn leg_at(world: World, route: Seq<Pos>, i: int) -> bool {
    is_leg(world, route[i + 1], route[i])
}

/// `route` leads from `start` to `target`. It lists its waypoints from the
/// last to the first: it begins with `target` and ends with the waypoint
/// that follows `start`, which is not part of it. Every waypoint is a free
/// cell that can be reached from `start` over the lattice, and every move
/// from one waypoint to the next is a leg.
pub open spec fn is_route(world: World, start: Pos, target: Pos, route: Seq<Pos>) -> bool {
    &&& route.len() > 0
    &&& route[0] == target
    &&& forall|i: int|
        0 <= i < route.len() ==> (#[trigger] route[i]) != start && cell_free(world, route[i])
            && reachable(world, start, route[i])
    &&& forall|i: int| 0 <= i < route.len() - 1 ==> #[trigger] leg_at(world, route, i)
    &&& is_leg(world, start, route.last())
}

/// A walk that is continued by a step to a free cell reaches that cell.
proof fn lemma_reach_step(world: World, start: Pos, p: Pos, q: Pos)
    requires
        reachable(world, start, p),
        is_step(p, q),
        cell_free(world, q),
    ensures
        reachable(world, start, q),
{
    if p == start {
        let walk = seq![q];
        assert forall|i: int| 0 <= i < walk.len() implies #[trigger] step_at(
            world,
            start,
            walk,
            i,
        ) by {}
        assert(walk_to(world, start, walk, q));
    } else {
        let walk = choose|walk: Seq<Pos>| #[trigger] walk_to(world, start, walk, p);
        let longer = walk.push(q);
        assert forall|i: int| 0 <= i < longer.len() implies #[trigger] step_at(
            world,
            start,
            longer,
            i,
        ) by {
            if i < walk.len() {
                assert(step_at(world, start, walk, i));
            }
        }
        assert(walk_to(world, start, longer, q));
    }
}

/// In a world without obstacles every cell sees every other.
pub proof fn lemma_nothing_blocks_without_obstacles(world: World, p: Pos, q: Pos)
    requires
        obstacle_free(world),
    ensures
        !line_blocked(p, q, world),
{
    assert forall|a: Pos, b: Pos, k: int| !#[trigger] low_hit(a, b, world, k) by {
        let c = low_cell(a, b, k);
        assert(!world.blocked(c.0, c.1));
    }
    assert forall|a: Pos, b: Pos, k: int| !#[trigger] high_hit(a, b, world, k) by {
        let c = high_cell(a, b, k);
        assert(!world.blocked(c.0, c.1));
    }
}

/// A line along an axis does not leave it.
proof fn lemma_flat_line(k: int)
    ensures
        minor_steps(k, STEP_SIZE as int, 0) == 0,
{
    assert(2 * k * 0 == 0) by (nonlinear_arith);
    assert(3int / 8int == 0);
}

/// In a world whose obstacles are wider than the gaps of the lattice, two
/// free lattice neighbours see each other.
pub proof fn lemma_step_is_visible(world: World, p: Pos, q: Pos)
    requires
        world.valid(),
        cell_free(world, p),
        cell_free(world, q),
        is_step(p, q),
    ensures
        !line_blocked(p, q, world),
{
    let (a, b) = if p.x < q.x || p.y < q.y {
        (p, q)
    } else {
        (q, p)
    };
    if p.y == q.y {
        assert forall|k: int| 0 <= k <= b.x - a.x implies !#[trigger] low_hit(a, b, world, k) by {
            lemma_flat_line(k);
            if world.blocked(a.x + k, a.y as int) {
                world.lemma_obstacle_spans_step_x(a.x + k, a.y as int, a.x as int);
            }
        }
    } else {
        assert forall|k: int| 0 <= k <= b.y - a.y implies !#[trigger] high_hit(a, b, world, k) by {
            lemma_flat_line(k);
            if world.blocked(a.x as int, a.y + k) {
                world.lemma_obstacle_spans_step_y(a.x as int, a.y + k, a.y as int);
            }
        }
    }
}

/// Every waypoint of a route sees the next: no obstacle lies on the line
/// between two waypoints that follow one another.
pub proof fn lemma_route_is_visible(
    world: World,
    start: Pos,
    target: Pos,
    route: Seq<Pos>,
    i: int,
)
    requires
        world.valid(),
        is_route(world, start, target, route),
        0 <= i < route.len() - 1,
    ensures
        !line_blocked(route[i], route[i + 1], world),
        !line_blocked(route[i + 1], route[i], world),
{
    assert(leg_at(world, route, i));
    if is_step(route[i + 1], route[i]) {
        lemma_step_is_visible(world, route[i + 1], route[i]);
    }
    lemma_line_blocked_symmetric(route[i], route[i + 1], world);
}

/// The waypoints of a route that was found, if one was.
pub open spec fn route_of(route: Option<Vec<Pos>>) -> Option<Seq<Pos>> {
    match route {
        Some(r) => Some(r@),
        None => None,
    }
}

/// `path` holds the waypoints of a route to `target`, from `target` back to
/// the one that follows `curr`.
spec fn route_so_far(world: World, start: Pos, target: Pos, path: Seq<Pos>, curr: Pos) -> bool {
    &&& path.len() == 0 ==> curr == target
    &&& path.len() > 0 ==> path[0] == target && is_leg(world, curr, path.last())
    &&& forall|i: int|
        0 <= i < path.len() ==> (#[trigger] path[i]) != start && cell_free(world, path[i])
            && reachable(world, start, path[i])
    &&& forall|i: int| 0 <= i < path.len() - 1 ==> #[trigger] leg_at(world, path, i)
}

/// A route that is followed back grows by the waypoint it has come to.
proof fn lemma_route_grows(
    world: World,
    start: Pos,
    target: Pos,
    path: Seq<Pos>,
    curr: Pos,
    next: Pos,
)
    requires
        route_so_far(world, start, target, path, curr),
        curr != start,
        cell_free(world, curr),
        reachable(world, start, curr),
        is_leg(world, next, curr),
    ensures
        route_so_far(world, start, target, path.push(curr), next),
{
    let longer = path.push(curr);
    assert forall|i: int| 0 <= i < longer.len() implies (#[trigger] longer[i]) != start
        && cell_free(world, longer[i]) && reachable(world, start, longer[i]) by {
        if i < path.len() {
            assert(longer[i] == path[i]);
        }
    }
    assert forall|i: int| 0 <= i < longer.len() - 1 implies #[trigger] leg_at(
        world,
        longer,
        i,
    ) by {
        if i + 1 < path.len() {
            assert(leg_at(world, path, i));
        }
    }
}

/// A route that has been followed back to `start` is complete.
proof fn lemma_route_arrives(world: World, start: Pos, target: Pos, path: Seq<Pos>)
    requires
        route_so_far(world, start, target, path, start),
        target != start,
    ensures
        is_route(world, start, target, path),
{
}

/// A route from `start` to `target` is owed: the costs of `metric` are
/// steady, and `target` is a cell of `world` other than `start` that the
/// lattice of `start` reaches over free cells.
pub open spec fn route_owed<M: Metric>(world: World, start: Pos, target: Pos, metric: M) -> bool {
    &&& is_steady(metric)
    &&& cell_inside(world, target)
    &&& target != start
    &&& reachable(world, start, target)
}

/// A search that has come to every free neighbour of every cell that it has
/// come to has come to every cell of every walk from `start`.
proof fn lemma_walk_is_visited(search: ThetaStar, world: World, start: Pos, walk: Seq<Pos>, i: int)
    requires
        forall|p: Pos| #[trigger] search.visited(start, p) ==> search.surrounded(world, start, p),
        is_walk(world, start, walk),
        0 <= i < walk.len(),
    ensures
        search.visited(start, walk[i]),
    decreases i,
{
    assert(step_at(world, start, walk, i));
    if i == 0 {
        assert(search.visited(start, start));
        assert(search.surrounded(world, start, start));
    } else {
        lemma_walk_is_visited(search, world, start, walk, i - 1);
        assert(search.surrounded(world, start, walk[i - 1]));
    }
}

/// Two searches with the same parents and costs have come to the same
/// cells, and what holds of the costs of the one holds of the costs of the
/// other.
proof fn lemma_same_maps(a: ThetaStar, b: ThetaStar, world: World, start: Pos)
    requires
        a.parents == b.parents,
        a.costs == b.costs,
        a.stamps == b.stamps,
        a.clock == b.clock,
    ensures
        forall|p: Pos| a.visited(start, p) == #[trigger] b.visited(start, p),
        forall|p: Pos| a.surrounded(world, start, p) == #[trigger] b.surrounded(world, start, p),
        a.steady_costs(start) == b.steady_costs(start),
{
    assert forall|p: Pos| a.surrounded(world, start, p) == #[trigger] b.surrounded(
        world,
        start,
        p,
    ) by {
        if a.surrounded(world, start, p) {
            assert forall|q: Pos| is_step(p, q) && cell_free(world, q) implies #[trigger]
                b.visited(start, q) by {
                assert(a.visited(start, q));
            }
        }
        if b.surrounded(world, start, p) {
            assert forall|q: Pos| is_step(p, q) && cell_free(world, q) implies #[trigger]
                a.visited(start, q) by {
                assert(b.visited(start, q));
            }
        }
    }
    if a.steady_costs(start) {
        assert forall|p: Pos| b.covers(p) implies (b.visited(start, p) <==> #[trigger] b.cost_of(p)
            < UNREACHED) by {
            assert(a.covers(p) && a.cost_of(p) == b.cost_of(p));
        }
    }
    if b.steady_costs(start) {
        assert forall|p: Pos| a.covers(p) implies (a.visited(start, p) <==> #[trigger] a.cost_of(p)
            < UNREACHED) by {
            assert(b.covers(p) && a.cost_of(p) == b.cost_of(p));
        }
    }
}

/// A search that has grown keeps growing.
proof fn lemma_grows_on(first: ThetaStar, second: ThetaStar, third: ThetaStar, start: Pos)
    requires
        first.grown_to(second, start),
        second.grown_to(third, start),
    ensures
        first.grown_to(third, start),
{
    assert forall|p: Pos| #[trigger]
        third.visited(start, p) && !first.visited(start, p) implies third.waits(p) by {
        if second.visited(start, p) {
            assert(second.waits(p));
            let c = choose|c: Cost| #[trigger] second.open_set@.count((p, c)) > 0;
            assert(third.open_set@.count((p, c)) > 0);
        }
    }
}

/// Cells of a rectangle of which no two are the same are no more than the
/// rectangle has.
proof fn lemma_distinct_cells_fit(w: int, h: int, cells: Seq<Pos>)
    requires
        0 <= w,
        0 <= h,
        forall|i: int| 0 <= i < cells.len() ==> 0 <= (#[trigger] cells[i]).x < w && 0 <= cells[i].y < h,
        forall|i: int, j: int|
            0 <= i < cells.len() && 0 <= j < cells.len() && i != j ==> cells[i] != cells[j],
    ensures
        cells.len() <= w * h,
{
    let slots = Seq::new(cells.len(), |i: int| cells[i].x * h + cells[i].y);
    assert forall|i: int, j: int|
        0 <= i < slots.len() && 0 <= j < slots.len() && i != j implies slots[i] != slots[j] by {
        let (a, b) = (cells[i], cells[j]);
        if slots[i] == slots[j] {
            if a.x < b.x {
                assert(b.x * h >= (a.x + 1) * h) by (nonlinear_arith)
                    requires
                        b.x >= a.x + 1,
                        h >= 0,
                ;
                assert((a.x + 1) * h == a.x * h + h) by (nonlinear_arith);
            } else if b.x < a.x {
                assert(a.x * h >= (b.x + 1) * h) by (nonlinear_arith)
                    requires
                        a.x >= b.x + 1,
                        h >= 0,
                ;
                assert((b.x + 1) * h == b.x * h + h) by (nonlinear_arith);
            }
        }
    }
    assert forall|i: int| 0 <= i < slots.len() implies 0 <= #[trigger] slots[i] < w * h by {
        let a = cells[i];
        assert(0 <= a.x * h + a.y < w * h) by (nonlinear_arith)
            requires
                0 <= a.x < w,
                0 <= a.y < h,
        ;
    }
    assert(0 <= w * h) by (nonlinear_arith)
        requires
            0 <= w,
            0 <= h,
    ;
    if cells.len() > 0 {
        assert(slots.no_duplicates());
        slots.unique_seq_to_set();
        vstd::set_lib::lemma_int_range(0, w * h);
        assert(slots.to_set().subset_of(vstd::set_lib::set_int_range(0, w * h))) by {
            assert forall|v: int| slots.to_set().contains(v) implies vstd::set_lib::set_int_range(
                0,
                w * h,
            ).contains(v) by {
                let i = choose|i: int| 0 <= i < slots.len() && slots[i] == v;
                assert(0 <= slots[i] < w * h);
            }
        }
        vstd::set_lib::lemma_len_subset(slots.to_set(), vstd::set_lib::set_int_range(0, w * h));
    }
}

/// The cell whose cost is number `k` in the sum of all costs.
spec fn cell_of_slot(h: int, k: int) -> (int, int) {
    (k / h, k % h)
}

/// The sum of the first `n` costs of a map.
spec fn cost_sum(costs: PosMap<Cost>, n: nat) -> int
    decreases n,
{
    if n == 0 {
        0
    } else {
        let c = cell_of_slot(costs.dims().1 as int, n - 1);
        cost_sum(costs, (n - 1) as nat) + costs.at(c.0, c.1)
    }
}

/// The sum of all costs of a map.
spec fn total_cost(costs: PosMap<Cost>) -> int {
    cost_sum(costs, costs.dims().0 * costs.dims().1)
}

/// A sum of costs is not negative.
proof fn lemma_cost_sum_not_negative(costs: PosMap<Cost>, n: nat)
    ensures
        cost_sum(costs, n) >= 0,
    decreases n,
{
    if n > 0 {
        lemma_cost_sum_not_negative(costs, (n - 1) as nat);
    }
}

/// The cost of one cell enters the sum of all costs once.
proof fn lemma_cost_sum_after_set(
    before: PosMap<Cost>,
    after: PosMap<Cost>,
    x: int,
    y: int,
    n: nat,
)
    requires
        after.dims() == before.dims(),
        before.holds(x, y),
        forall|i: int, j: int|
            after.holds(i, j) && (i, j) != (x, y) ==> #[trigger] after.at(i, j) == before.at(i, j),
        n <= before.dims().0 * before.dims().1,
    ensures
        cost_sum(after, n) == cost_sum(before, n) + (if x * before.dims().1 + y < n {
            after.at(x, y) - before.at(x, y)
        } else {
            0
        }),
    decreases n,
{
    if n > 0 {
        let w = before.dims().0 as int;
        let h = before.dims().1 as int;
        let k = n - 1;
        lemma_cost_sum_after_set(before, after, x, y, k as nat);
        lemma_fundamental_div_mod(k, h);
        lemma_mod_bound(k, h);
        assert(0 <= k / h < w) by (nonlinear_arith)
            requires
                0 <= k < w * h,
                h > 0,
                k == h * (k / h) + k % h,
                0 <= k % h < h,
        ;
        let c = cell_of_slot(h, k);
        if c == (x, y) {
            assert(k == x * h + y) by (nonlinear_arith)
                requires
                    k == h * (k / h) + k % h,
                    k / h == x,
                    k % h == y,
            ;
        } else {
            if k == x * h + y {
                lemma_fundamental_div_mod_converse(k, h, x, y);
            }
        }
    }
}

/// The slot of a cell of the map lies within the sum of all costs.
proof fn lemma_cell_has_slot(costs: PosMap<Cost>, x: int, y: int)
    requires
        costs.holds(x, y),
    ensures
        0 <= x * costs.dims().1 + y < costs.dims().0 * costs.dims().1,
{
    let w = costs.dims().0 as int;
    let h = costs.dims().1 as int;
    assert(0 <= x * h + y < w * h) by (nonlinear_arith)
        requires
            0 <= x < w,
            0 <= y < h,
    ;
}

/// Whether `pos` is a cell of `world`.
fn in_world(world: &World, pos: &Pos) -> (r: bool)
    ensures
        r == cell_inside(*world, *pos),
{
    let (w, h) = world.shape();
    pos.x >= 0 && pos.y >= 0 && (pos.x as u64) < w as u64 && (pos.y as u64) < h as u64
}

/// The state of a search, kept from one search to the next to spare the
/// allocations.
pub struct ThetaStar {
    /// Unexpanded nodes, each with its cost to go to the node plus the
    /// estimate of the rest.
    open_set: PriorityQueue<Pos, Cost>,
    /// Maps a node to the waypoint before it.
    parents: PosMap<Pos>,
    /// The best cost to go to each node that is known so far.
    costs: PosMap<Cost>,
    /// When each node was last taken up, counted in nodes taken up.
    stamps: Ghost<Map<Pos, nat>>,
    /// How many nodes the search has taken up, and one more.
    clock: Ghost<nat>,
}

impl ThetaStar {
    /// The two maps are as large as one another, and what they hold for
    /// "not set" is a cell that no world has and a cost that no way has.
    pub closed spec fn wf(&self) -> bool {
        &&& self.parents.dims() == self.costs.dims()
        &&& self.parents.sentinel() == (Pos { x: -1i64, y: -1i64 })
        &&& self.costs.sentinel() == UNREACHED
    }

    /// The shape of the worlds that can be searched.
    pub closed spec fn dims(&self) -> (nat, nat) {
        self.parents.dims()
    }

    /// The waypoint before `p` on the best way to `p` that the last search
    /// has found, if it found any.
    pub closed spec fn parent_of(&self, p: Pos) -> Option<Pos> {
        if self.parents.filled(p) {
            Some(self.parents.value(p))
        } else {
            None
        }
    }

    /// The cost of the best way to `p` that the last search has found;
    /// `UNREACHED` where it found none.
    pub closed spec fn cost_of(&self, p: Pos) -> Cost {
        self.costs.value(p)
    }

    /// The nodes that wait to be expanded, each with its estimate.
    pub closed spec fn open(&self) -> Multiset<(Pos, Cost)> {
        self.open_set@
    }

    /// The waypoints on the way back from `p` to `start`, `p` first and
    /// `start` left out: `p`, its parent, the parent of that, and so on.
    /// There is no such way where a cell on it has no parent, or where
    /// `start` has not come after `n` waypoints.
    pub open spec fn way_back(&self, start: Pos, p: Pos, n: nat) -> Option<Seq<Pos>>
        decreases n,
    {
        if p == start {
            Some(Seq::empty())
        } else if n == 0 {
            None
        } else {
            match self.parent_of(p) {
                None => None,
                Some(q) => match self.way_back(start, q, (n - 1) as nat) {
                    None => None,
                    Some(rest) => Some(seq![p] + rest),
                },
            }
        }
    }

    /// The waypoint from which `node` is reached when `current` is
    /// expanded: the parent of `current` if it has one that sees `node`,
    /// and `current` otherwise.
    pub open spec fn source(&self, node: Pos, current: Pos, world: World) -> Pos {
        match self.parent_of(current) {
            Some(parent) => if line_blocked(parent, node, world) {
                current
            } else {
                parent
            },
            None => current,
        }
    }

    /// `p` is a cell of the worlds that can be searched.
    pub open spec fn covers(&self, p: Pos) -> bool {
        0 <= p.x < self.dims().0 && 0 <= p.y < self.dims().1
    }

    /// `after` is the search `self` once it has taken up the way to
    /// `neighbour` that comes from `src` at `cost`: `neighbour` waits to be
    /// expanded, with `expected_cost` for its estimate, and has `src` for
    /// its parent and `cost` for its cost. Nothing else has changed.
    pub open spec fn taken_up(
        &self,
        after: ThetaStar,
        neighbour: Pos,
        src: Pos,
        cost: Cost,
        expected_cost: Cost,
    ) -> bool {
        &&& after.wf()
        &&& after.dims() == self.dims()
        &&& after.open() == self.open().insert((neighbour, expected_cost))
        &&& after.parent_of(neighbour) == Some(src)
        &&& after.cost_of(neighbour) == cost
        &&& forall|p: Pos| p != neighbour ==> #[trigger] after.parent_of(p) == self.parent_of(p)
        &&& forall|p: Pos|
            p != neighbour && after.covers(p) ==> #[trigger] after.cost_of(p) == self.cost_of(p)
    }

    /// `after` is the search `self` once `neighbour` has been offered the
    /// way from `src` at `cost`: where `cost` is below the cost that
    /// `neighbour` has, the way is taken up, with an estimate that `metric`
    /// gives for the way on to `target`, and otherwise nothing has changed.
    pub open spec fn offered<M: Metric>(
        &self,
        after: ThetaStar,
        neighbour: Pos,
        src: Pos,
        target: Pos,
        metric: M,
        cost: Cost,
    ) -> bool {
        if cost < self.cost_of(neighbour) {
            exists|expected_cost: Cost|
                #[trigger] prices(metric, cost, neighbour, target, expected_cost) && self.taken_up(
                    after,
                    neighbour,
                    src,
                    cost,
                    expected_cost,
                )
        } else {
            after == *self
        }
    }

    /// `after` is the search `self` once `neighbour` has been relaxed from
    /// `current`. The way to `neighbour` comes from `source`; where that is
    /// `neighbour` itself nothing has changed, and otherwise `neighbour` has
    /// been offered the way at a cost that `metric` gives for it.
    pub open spec fn relaxed<M: Metric>(
        &self,
        after: ThetaStar,
        neighbour: Pos,
        current: Pos,
        target: Pos,
        world: World,
        metric: M,
    ) -> bool {
        let src = self.source(neighbour, current, world);
        if neighbour == src {
            after == *self
        } else {
            exists|cost: Cost|
                #[trigger] prices(metric, self.cost_of(src), src, neighbour, cost) && self.offered(
                    after,
                    neighbour,
                    src,
                    target,
                    metric,
                    cost,
                )
        }
    }

    /// Between the states number `i` and `i + 1` of `steps` the free
    /// neighbour number `i` of `current` has been relaxed.
    pub open spec fn step_relaxed<M: Metric>(
        steps: Seq<ThetaStar>,
        i: int,
        current: Pos,
        target: Pos,
        world: World,
        metric: M,
    ) -> bool {
        let cell = world.free_neighbours(current.x as int, current.y as int)[i];
        steps[i].relaxed(
            steps[i + 1],
            Pos { x: cell.0 as i64, y: cell.1 as i64 },
            current,
            target,
            world,
            metric,
        )
    }

    /// `steps` leads from the search `self` to `after` by relaxing the free
    /// neighbours of `current` one after the other, in the order in which
    /// the world gives them.
    pub open spec fn expanded_by<M: Metric>(
        &self,
        after: ThetaStar,
        steps: Seq<ThetaStar>,
        current: Pos,
        target: Pos,
        world: World,
        metric: M,
    ) -> bool {
        &&& steps.len() == world.free_neighbours(current.x as int, current.y as int).len() + 1
        &&& steps[0] == *self
        &&& steps.last() == after
        &&& forall|i: int|
            0 <= i < steps.len() - 1 ==> #[trigger] Self::step_relaxed(
                steps,
                i,
                current,
                target,
                world,
                metric,
            )
    }

    /// The search has come to `p`: it began there, or has found a way
    /// there.
    spec fn visited(&self, start: Pos, p: Pos) -> bool {
        p == start || self.parents.filled(p)
    }

    /// What the search knows of the way to `p` is sound: `p` is a free cell
    /// that the lattice reaches, and the move from the waypoint before it is
    /// a leg that begins where the search has come to.
    spec fn linked(&self, world: World, start: Pos, p: Pos) -> bool {
        &&& cell_free(world, p)
        &&& reachable(world, start, p)
        &&& self.visited(start, self.parents.value(p))
        &&& is_leg(world, self.parents.value(p), p)
        &&& obstacle_free(world) ==> self.parents.value(p) == start
    }

    /// The search `self` knows the ways that `other` knows: every cell has
    /// the same parent and the same cost.
    pub open spec fn same_ways(&self, other: ThetaStar) -> bool {
        &&& self.dims() == other.dims()
        &&& forall|p: Pos| #[trigger] self.parent_of(p) == other.parent_of(p)
        &&& forall|p: Pos| self.covers(p) ==> #[trigger] self.cost_of(p) == other.cost_of(p)
    }

    /// A search from `start` begins as `self`: `start` waits at no cost,
    /// and no cell has a parent or another cost than `UNREACHED`.
    pub open spec fn started(&self, start: Pos) -> bool {
        &&& self.open() == Multiset::<(Pos, Cost)>::empty().insert((start, NO_COST))
        &&& forall|p: Pos| (#[trigger] self.parent_of(p)).is_none()
        &&& forall|p: Pos|
            self.covers(p) ==> #[trigger] self.cost_of(p) == (if p == start {
                NO_COST
            } else {
                UNREACHED
            })
    }

    /// `after` is the search `self` once `current` has left the open set:
    /// no node that waited was cheaper, and nothing else has changed.
    pub open spec fn popped(&self, after: ThetaStar, current: Pos) -> bool {
        exists|cost: Cost|
            {
                &&& #[trigger] is_cheapest(self.open(), (current, cost))
                &&& after.same_ways(*self)
                &&& after.open() == self.open().remove((current, cost))
            }
    }

    /// Between the states number `i` and `i + 1` of `rounds` a node other
    /// than `target` has left the open set and has been expanded.
    pub open spec fn round_at<M: Metric>(
        rounds: Seq<ThetaStar>,
        i: int,
        target: Pos,
        world: World,
        metric: M,
    ) -> bool {
        exists|taken: ThetaStar, current: Pos, steps: Seq<ThetaStar>|
            {
                &&& #[trigger] taken.expanded_by(
                    rounds[i + 1],
                    steps,
                    current,
                    target,
                    world,
                    metric,
                )
                &&& rounds[i].popped(taken, current)
                &&& current != target
            }
    }

    /// `self` is what a search from `start` for `target` leaves behind,
    /// and `rounds` are the states that it went through, one for each node
    /// that it expanded: it began with `start` alone, took the cheapest
    /// node from the open set round after round and expanded it, and came
    /// to an end when `target` left the open set or nothing waited any
    /// more.
    pub open spec fn searched_by<M: Metric>(
        &self,
        rounds: Seq<ThetaStar>,
        start: Pos,
        target: Pos,
        world: World,
        metric: M,
    ) -> bool {
        &&& rounds.len() > 0
        &&& rounds[0].started(start)
        &&& forall|i: int|
            0 <= i < rounds.len() - 1 ==> #[trigger] Self::round_at(
                rounds,
                i,
                target,
                world,
                metric,
            )
        &&& {
            ||| rounds.last().open().len() == 0 && self.open() == rounds.last().open()
                && self.same_ways(rounds.last())
            ||| rounds.last().popped(*self, target)
        }
    }

    /// `p` waits to be expanded.
    spec fn waits(&self, p: Pos) -> bool {
        exists|c: Cost| #[trigger] self.open_set@.count((p, c)) > 0
    }

    /// The search has come to every free lattice neighbour of `p`.
    spec fn surrounded(&self, world: World, start: Pos, p: Pos) -> bool {
        forall|q: Pos| is_step(p, q) && cell_free(world, q) ==> #[trigger] self.visited(start, q)
    }

    /// Every cell that the search has come to, but for `hole`, waits to be
    /// expanded or has been expanded.
    spec fn closed_but(&self, world: World, start: Pos, hole: Option<Pos>) -> bool {
        forall|p: Pos| #[trigger]
            self.visited(start, p) && Some(p) != hole ==> self.waits(p) || self.surrounded(
                world,
                start,
                p,
            )
    }

    /// `after` is a later state of the search `self`: it has come to every
    /// cell that `self` has come to, every node that waits in `self` waits
    /// in it, and so does every cell that it has come to since.
    spec fn grown_to(&self, after: ThetaStar, start: Pos) -> bool {
        &&& forall|p: Pos| self.visited(start, p) ==> #[trigger] after.visited(start, p)
        &&& forall|e: (Pos, Cost)|
            self.open_set@.count(e) > 0 ==> #[trigger] after.open_set@.count(e) > 0
        &&& forall|p: Pos| #[trigger]
            after.visited(start, p) && !self.visited(start, p) ==> after.waits(p)
    }

    /// `path` is a way back that has come to `curr`: its waypoints are cells
    /// of the search, each comes before the one that stands before it, and
    /// `curr` comes before them all.
    spec fn way_so_far(&self, path: Seq<Pos>, curr: Pos) -> bool {
        &&& forall|i: int|
            0 <= i < path.len() ==> self.covers(#[trigger] path[i]) && self.before_on_way(
                curr,
                path[i],
            )
        &&& forall|i: int, j: int|
            0 <= i < j < path.len() ==> #[trigger] self.before_on_way(path[j], path[i])
    }

    /// The way to `p` is shorter than the way to `q`, or as long and taken
    /// up earlier.
    spec fn before_on_way(&self, p: Pos, q: Pos) -> bool {
        self.cost_of(p) < self.cost_of(q) || (self.cost_of(p) == self.cost_of(q)
            && self.stamps@[p] < self.stamps@[q])
    }

    /// What holds of the costs of a search from `start` under a steady
    /// metric: the cells that the search has come to are those with a cost
    /// below `UNREACHED`, and the parent of a cell comes before the cell on
    /// the way, so that the parents lead back to `start`.
    spec fn steady_costs(&self, start: Pos) -> bool {
        &&& self.stamps@[start] == 0
        &&& self.clock@ > 0
        &&& forall|p: Pos|
            self.covers(p) ==> (self.visited(start, p) <==> #[trigger] self.cost_of(p)
                < UNREACHED)
        &&& forall|p: Pos| #[trigger]
            self.parents.filled(p) ==> 0 < self.stamps@[p] < self.clock@ && self.before_on_way(
                self.parents.value(p),
                p,
            )
    }

    /// What holds of a search from `start` while it runs, and of its costs
    /// where the metric is steady.
    spec fn searching(&self, world: World, start: Pos, steady: bool) -> bool {
        &&& steady ==> self.steady_costs(start)
        &&& self.wf()
        &&& self.dims() == world.dims()
        &&& world.valid()
        &&& cell_inside(world, start)
        &&& !self.parents.filled(start)
        &&& self.costs.value(start) == NO_COST
        &&& forall|e: (Pos, Cost)| #[trigger] self.open_set@.count(e) > 0 ==> self.visited(start, e.0)
        &&& forall|p: Pos| #[trigger] self.parents.filled(p) ==> self.linked(world, start, p)
    }

    /// What is left to do: it shrinks with every node that leaves the open
    /// set and does not grow when a node enters it, as a node only enters
    /// at a lower cost than it had.
    spec fn work_left(&self) -> int {
        2 * total_cost(self.costs) + self.open_set@.len()
    }

    /// The state for searches of worlds of the shape of `world`: no node
    /// waits, and no cell has a parent or a cost.
    pub fn new(world: &World) -> (search: Self)
        ensures
            search.wf(),
            search.dims() == world.dims(),
            search.open() == Multiset::<(Pos, Cost)>::empty(),
            forall|p: Pos| (#[trigger] search.parent_of(p)).is_none(),
            forall|p: Pos| cell_inside(*world, p) ==> #[trigger] search.cost_of(p) == UNREACHED,
    {
        let shape = world.shape();
        proof {
            lemma_shape_fits(shape.0 as int, shape.1 as int);
        }
        let search = Self {
            open_set: PriorityQueue::with_capacity(4096),
            parents: PosMap::new(shape, Pos::new(-1, -1)),
            costs: PosMap::new(shape, UNREACHED),
            stamps: Ghost(Map::empty()),
            clock: Ghost(0),
        };
        proof {
            assert forall|p: Pos| (#[trigger] search.parent_of(p)).is_none() by {
                assert(!search.parents.filled(p));
            }
        }
        search
    }

    /// Forgets the last search: afterwards no node waits and no cell has a
    /// parent.
    pub fn clear(&mut self)
        requires
            old(self).wf(),
        ensures
            final(self).wf(),
            final(self).dims() == old(self).dims(),
            final(self).open() == Multiset::<(Pos, Cost)>::empty(),
            forall|p: Pos| (#[trigger] final(self).parent_of(p)).is_none(),
            forall|p: Pos|
                0 <= p.x < final(self).dims().0 && 0 <= p.y < final(self).dims().1
                    ==> #[trigger] final(self).cost_of(p) == UNREACHED,
    {
        self.open_set.clear();
        self.parents.clear();
        self.costs.clear();
        proof {
            assert forall|p: Pos| (#[trigger] self.parent_of(p)).is_none() by {
                assert(!self.parents.filled(p));
            }
        }
    }

    /// The waypoint from which `node` is reached when `current` is
    /// expanded: the parent of `current` if it sees `node`, and `current`
    /// otherwise.
    fn source_of(&self, node: &Pos, current: &Pos, world: &World, Ghost(start): Ghost<Pos>) -> (src:
        Pos)
        requires
            self.searching(*world, start, false),
            self.visited(start, *current),
            is_step(*current, *node),
        ensures
            src == self.source(*node, *current, *world),
            self.visited(start, src),
            is_leg(*world, src, *node),
            cell_inside(*world, src),
            obstacle_free(*world) ==> src == start,
    {
        if let Some(parent) = self.parents.get_if_set(current) {
            proof {
                if obstacle_free(*world) {
                    lemma_nothing_blocks_without_obstacles(*world, *parent, *node);
                }
            }
            if !path_is_blocked(parent, node, world) {
                return *parent;
            }
        }
        *current
    }

    /// Whether a way to `neighbour` at `cost` is cheaper than what
    /// `neighbour` has.
    fn improves(&self, neighbour: &Pos, cost: Cost) -> (better: bool)
        requires
            self.wf(),
        ensures
            better == (cost < (if self.parents.inside(*neighbour) {
                self.cost_of(*neighbour)
            } else {
                UNREACHED
            })),
    {
        cost < self.costs.get_or(neighbour, &UNREACHED)
    }

    /// Takes up the way to `neighbour` that comes from `src` at `cost`:
    /// `neighbour` waits to be expanded, with `expected_cost` for its
    /// estimate, and has `src` for its parent.
    fn take_up(&mut self, neighbour: &Pos, src: &Pos, cost: Cost, expected_cost: Cost)
        requires
            old(self).wf(),
            old(self).parents.inside(*neighbour),
            src.x >= 0,
        ensures
            old(self).taken_up(*final(self), *neighbour, *src, cost, expected_cost),
            total_cost(final(self).costs) == total_cost(old(self).costs) - old(self).cost_of(
                *neighbour,
            ) + cost,
            final(self).stamps@ == old(self).stamps@.insert(*neighbour, old(self).clock@),
            final(self).clock@ == old(self).clock@ + 1,
    {
        let ghost before = *self;
        self.open_set.push(*neighbour, expected_cost);
        self.parents.set(neighbour, *src);
        self.costs.set(neighbour, cost);
        proof {
            self.stamps@ = self.stamps@.insert(*neighbour, self.clock@);
            self.clock@ = self.clock@ + 1;
        }
        proof {
            assert forall|p: Pos| p != *neighbour implies #[trigger] self.parent_of(p)
                == before.parent_of(p) by {
                if self.parents.inside(p) {
                    assert(self.parents.value(p) == before.parents.value(p));
                }
            }
            lemma_cell_has_slot(before.costs, neighbour.x as int, neighbour.y as int);
            lemma_cost_sum_after_set(
                before.costs,
                self.costs,
                neighbour.x as int,
                neighbour.y as int,
                before.costs.dims().0 * before.costs.dims().1,
            );
        }
    }

    /// Offers `neighbour` the way over `current`, and takes it up where it
    /// is cheaper than what `neighbour` has.
    fn relax<M: Metric>(
        &mut self,
        neighbour: &Pos,
        current: &Pos,
        target: &Pos,
        world: &World,
        metric: &M,
        Ghost(start): Ghost<Pos>,
        Ghost(steady): Ghost<bool>,
    )
        requires
            old(self).searching(*world, start, steady),
            old(self).visited(start, *current),
            is_step(*current, *neighbour),
            cell_free(*world, *neighbour),
            steady ==> is_steady(*metric),
        ensures
            old(self).relaxed(*final(self), *neighbour, *current, *target, *world, *metric),
            final(self).searching(*world, start, steady),
            final(self).visited(start, *current),
            final(self).work_left() <= old(self).work_left(),
            steady ==> final(self).visited(start, *neighbour),
            old(self).grown_to(*final(self), start),
    {
        broadcast use vstd::multiset::group_multiset_axioms;

        let src = self.source_of(neighbour, current, world, Ghost(start));
        if *neighbour == src {
            return ;
        }
        let cost = metric.add_distance(self.costs.get_unchecked(&src), &src, neighbour);
        assert(prices(*metric, self.cost_of(src), src, *neighbour, cost));
        if self.improves(neighbour, cost) {
            let expected_cost = metric.add_distance(cost, neighbour, target);
            assert(prices(*metric, cost, *neighbour, *target, expected_cost));
            let ghost before = *self;
            proof {
                lemma_reach_step(*world, start, *current, *neighbour);
            }
            self.take_up(neighbour, &src, cost, expected_cost);
            proof {
                assert forall|p: Pos| before.visited(start, p) implies self.visited(start, p) by {
                    if p != start && p != *neighbour {
                        assert(self.parent_of(p) == before.parent_of(p));
                    }
                }
                assert forall|e: (Pos, Cost)| #[trigger]
                    self.open_set@.count(e) > 0 implies self.visited(start, e.0) by {
                    if e != (*neighbour, expected_cost) {
                        assert(before.open_set@.count(e) > 0);
                    }
                }
                assert forall|p: Pos| #[trigger] self.parents.filled(p) implies self.linked(
                    *world,
                    start,
                    p,
                ) by {
                    if p != *neighbour {
                        assert(before.linked(*world, start, p));
                    } else {
                        assert(self.parent_of(p) == Some(src));
                    }
                }
                assert(self.parent_of(start) == before.parent_of(start));
                assert(self.cost_of(start) == before.cost_of(start));
                assert(before.offered(*self, *neighbour, src, *target, *metric, cost));
                assert(self.open_set@.count((*neighbour, expected_cost)) > 0);
                assert forall|p: Pos| #[trigger]
                    self.visited(start, p) && !before.visited(start, p) implies self.waits(p) by {
                    if p != *neighbour {
                        assert(self.parent_of(p) == before.parent_of(p));
                    }
                }
                assert forall|e: (Pos, Cost)| before.open_set@.count(e) > 0 implies #[trigger]
                    self.open_set@.count(e) > 0 by {}
                if steady {
                    assert forall|p: Pos| #[trigger] self.parents.filled(p) implies 0
                        < self.stamps@[p] < self.clock@ && self.before_on_way(
                        self.parents.value(p),
                        p,
                    ) by {
                        if p != *neighbour {
                            assert(before.parents.filled(p));
                            assert(self.parent_of(p) == before.parent_of(p));
                        } else {
                            assert(self.parent_of(p) == Some(src));
                        }
                    }
                    assert forall|p: Pos| self.covers(p) implies (self.visited(start, p)
                        <==> #[trigger] self.cost_of(p) < UNREACHED) by {
                        if p != *neighbour {
                            assert(self.parent_of(p) == before.parent_of(p));
                            assert(before.covers(p));
                        }
                    }
                }
            }
        } else {
            assert(self.offered(*self, *neighbour, src, *target, *metric, cost));
            // Under a steady metric the cost that was offered is below
            // `UNREACHED`, and so is the cost that `neighbour` has.
            assert(steady ==> self.cost_of(*neighbour) < UNREACHED);
        }
    }

    /// Offers every free neighbour of `current` the way over `current`:
    /// relaxes them one after the other, in the order in which the world
    /// gives them.
    fn expand<M: Metric>(
        &mut self,
        current: &Pos,
        target: &Pos,
        world: &World,
        metric: &M,
        Ghost(start): Ghost<Pos>,
        Ghost(steady): Ghost<bool>,
    )
        requires
            old(self).searching(*world, start, steady),
            old(self).visited(start, *current),
            cell_inside(*world, *current),
            steady ==> is_steady(*metric),
        ensures
            exists|steps: Seq<ThetaStar>| #[trigger]
                old(self).expanded_by(*final(self), steps, *current, *target, *world, *metric),
            final(self).searching(*world, start, steady),
            final(self).work_left() <= old(self).work_left(),
            old(self).grown_to(*final(self), start),
            steady ==> final(self).surrounded(*world, start, *current),
    {
        let shape = world.shape();
        proof {
            lemma_shape_fits(shape.0 as int, shape.1 as int);
        }
        let neighbours = world.free_neighbours_of(&(*current).into_pos());
        let ghost cells = world.free_neighbours(current.x as int, current.y as int);
        let ghost mut steps: Seq<ThetaStar> = seq![*self];
        let mut i: usize = 0;
        while i < neighbours.len()
            invariant
                i <= neighbours.len(),
                self.searching(*world, start, steady),
                self.visited(start, *current),
                self.work_left() <= old(self).work_left(),
                old(self).grown_to(*self, start),
                steady ==> is_steady(*metric),
                steady ==> forall|j: int|
                    0 <= j < i ==> self.visited(
                        start,
                        Pos { x: (#[trigger] cells[j]).0 as i64, y: cells[j].1 as i64 },
                    ),
                shape.0 == world.dims().0,
                shape.1 == world.dims().1,
                shape.0 <= isize::MAX / 8,
                shape.1 <= isize::MAX / 8,
                cells == world.free_neighbours(current.x as int, current.y as int),
                cells == cells_of(neighbours@),
                steps.len() == i + 1,
                steps[0] == *old(self),
                steps.last() == *self,
                forall|j: int|
                    0 <= j < i ==> #[trigger] Self::step_relaxed(
                        steps,
                        j,
                        *current,
                        *target,
                        *world,
                        *metric,
                    ),
                forall|j: int|
                    0 <= j < neighbours.len() ==> world.free(
                        (#[trigger] neighbours[j]).x as int,
                        neighbours[j].y as int,
                    ) && one_step_apart(
                        current.x as int,
                        current.y as int,
                        neighbours[j].x as int,
                        neighbours[j].y as int,
                    ),
            decreases neighbours.len() - i,
        {
            let n = neighbours[i];
            let neighbour = Pos::new(n.x as Coord, n.y as Coord);
            let ghost before = steps;
            let ghost earlier = *self;
            self.relax(&neighbour, current, target, world, metric, Ghost(start), Ghost(steady));
            proof {
                steps = steps.push(*self);
                assert(cells[i as int] == (n.x as int, n.y as int));
                assert forall|j: int| 0 <= j < i + 1 implies #[trigger] Self::step_relaxed(
                    steps,
                    j,
                    *current,
                    *target,
                    *world,
                    *metric,
                ) by {
                    if j < i {
                        assert(Self::step_relaxed(
                            before,
                            j,
                            *current,
                            *target,
                            *world,
                            *metric,
                        ));
                    }
                }
                lemma_grows_on(*old(self), earlier, *self, start);
            }
            i += 1;
        }
        proof {
            assert(cells.len() == neighbours.len());
            assert(old(self).expanded_by(*self, steps, *current, *target, *world, *metric));
            if steady {
                assert forall|q: Pos| is_step(*current, q) && cell_free(*world, q) implies #[trigger]
                    self.visited(start, q) by {
                    world.lemma_free_neighbour_is_listed(
                        current.x as int,
                        current.y as int,
                        q.x as int,
                        q.y as int,
                    );
                    let j = choose|j: int| 0 <= j < cells.len() && cells[j] == (q.x as int, q.y as int);
                    assert(q == Pos { x: cells[j].0 as i64, y: cells[j].1 as i64 });
                }
            }
        }
    }

    /// Follows the parents from `target` back to `start`. It gives up
    /// after as many waypoints as the world has cells: a longer chain of
    /// parents would never end. Under a steady metric it does not give up.
    fn reconstruct_path(
        &self,
        start: &Pos,
        target: &Pos,
        world: &World,
        Ghost(steady): Ghost<bool>,
    ) -> (route: Option<Vec<Pos>>)
        requires
            self.searching(*world, *start, steady),
            self.parent_of(*target).is_some(),
        ensures
            route matches Some(r) ==> is_route(*world, *start, *target, r@),
            route_of(route) == self.way_back(*start, *target, world.dims().0 * world.dims().1),
            steady ==> route.is_some(),
    {
        let shape = world.shape();
        proof {
            lemma_shape_fits(shape.0 as int, shape.1 as int);
        }
        let mut fuel: usize = shape.0 * shape.1;
        let mut path: Vec<Pos> = Vec::with_capacity(32);
        let mut curr = *target;
        while curr != *start
            invariant
                self.searching(*world, *start, steady),
                self.visited(*start, curr),
                route_so_far(*world, *start, *target, path@, curr),
                self.way_back(*start, *target, world.dims().0 * world.dims().1) == (
                match self.way_back(*start, curr, fuel as nat) {
                    None => None,
                    Some(rest) => Some(path@ + rest),
                }),
                shape.0 == world.dims().0,
                shape.1 == world.dims().1,
                path.len() + fuel == shape.0 * shape.1,
                steady ==> self.way_so_far(path@, curr),
            decreases fuel,
        {
            if fuel == 0 {
                proof {
                    if steady {
                        // As many waypoints as the world has cells, no two
                        // of them the same, and one more: there is no room.
                        let cells = path@.push(curr);
                        assert(self.parents.filled(curr));
                        assert forall|i: int, j: int|
                            0 <= i < cells.len() && 0 <= j < cells.len() && i != j implies cells[i]
                            != cells[j] by {
                            if i < path.len() && j < path.len() {
                                if i < j {
                                    assert(self.before_on_way(path[j], path[i]));
                                } else {
                                    assert(self.before_on_way(path[i], path[j]));
                                }
                            } else if i < path.len() {
                                assert(self.before_on_way(curr, path[i]));
                            } else {
                                assert(self.before_on_way(curr, path[j]));
                            }
                        }
                        lemma_distinct_cells_fit(shape.0 as int, shape.1 as int, cells);
                    }
                }
                return None;
            }
            fuel -= 1;
            let next = self.parents.get_unchecked(&curr);
            proof {
                lemma_route_grows(*world, *start, *target, path@, curr, next);
                if let Some(rest) = self.way_back(*start, next, fuel as nat) {
                    assert(path@ + (seq![curr] + rest) =~= path@.push(curr) + rest);
                }
                if steady {
                    assert(self.parents.filled(curr));
                    assert(self.before_on_way(next, curr));
                    let longer = path@.push(curr);
                    assert forall|i: int| 0 <= i < longer.len() implies self.covers(
                        #[trigger] longer[i],
                    ) && self.before_on_way(next, longer[i]) by {
                        if i < path.len() {
                            assert(self.before_on_way(curr, path[i]));
                        }
                    }
                    assert forall|i: int, j: int| 0 <= i < j < longer.len() implies #[trigger]
                        self.before_on_way(longer[j], longer[i]) by {
                        if j < path.len() {
                            assert(self.before_on_way(path[j], path[i]));
                        } else {
                            assert(self.before_on_way(curr, path[i]));
                        }
                    }
                }
            }
            path.push(curr);
            curr = next;
        }
        proof {
            lemma_route_arrives(*world, *start, *target, path@);
        }
        Some(path)
    }

    /// Searches a route from `start` to `target`.
    ///
    /// There is none where `target` is out of bounds, where it is `start`
    /// itself, and where the lattice of `start` does not reach it over free
    /// cells. Everywhere else there is one if the costs of `metric` are
    /// steady. Whether there is one under another metric rests on the costs
    /// that it gives: a node is only taken up at a cost below `UNREACHED`
    /// and below the cost it has.
    pub fn find_path<M: Metric>(
        &mut self,
        start: &Pos,
        target: &Pos,
        world: &World,
        metric: &M,
    ) -> (route: Option<Vec<Pos>>)
        requires
            old(self).wf(),
            old(self).dims() == world.dims(),
            cell_inside(*world, *target) ==> cell_inside(*world, *start),
        ensures
            final(self).wf(),
            final(self).dims() == old(self).dims(),
            route matches Some(r) ==> is_route(*world, *start, *target, r@),
            route matches Some(r) ==> (obstacle_free(*world) ==> r@ == seq![*target]),
            !cell_inside(*world, *target) ==> route.is_none(),
            *target == *start ==> route.is_none(),
            !reachable(*world, *start, *target) ==> route.is_none(),
            route_owed(*world, *start, *target, *metric) ==> route.is_some(),
            cell_inside(*world, *target) ==> exists|rounds: Seq<ThetaStar>| #[trigger]
                final(self).searched_by(rounds, *start, *target, *world, *metric),
            cell_inside(*world, *target) ==> route_of(route) == (
            if final(self).parent_of(*target).is_none() {
                None
            } else {
                final(self).way_back(*start, *target, world.dims().0 * world.dims().1)
            }),
    {
        broadcast use vstd::multiset::group_multiset_axioms;

        if !in_world(world, target) {
            return None;
        }
        let shape = world.shape();
        let ghost steady = is_steady(*metric);
        self.clear();
        let ghost cleared = *self;
        self.open_set.push(*start, NO_COST);
        self.costs.set(start, NO_COST);
        proof {
            self.stamps@ = self.stamps@.insert(*start, 0);
            self.clock@ = 1;
            assert(!self.parents.filled(*start)) by {
                assert(cleared.parent_of(*start).is_none());
            }
            assert forall|p: Pos| !#[trigger] self.parents.filled(p) by {
                assert(cleared.parent_of(p).is_none());
            }
            assert forall|p: Pos| self.covers(p) implies (self.visited(*start, p)
                <==> #[trigger] self.cost_of(p) < UNREACHED) by {
                if p != *start {
                    assert(cleared.cost_of(p) == UNREACHED);
                }
            }
            assert(self.open_set@.count((*start, NO_COST)) > 0);
            assert(self.waits(*start));
            assert forall|p: Pos| #[trigger] self.visited(*start, p) implies self.waits(p) by {}
            lemma_cost_sum_not_negative(
                self.costs,
                self.costs.dims().0 * self.costs.dims().1,
            );
        }
        let mut searching = true;
        let ghost mut found = false;
        let ghost mut rounds: Seq<ThetaStar> = seq![*self];
        proof {
            assert forall|p: Pos| self.covers(p) implies #[trigger] self.cost_of(p) == (if p
                == *start {
                NO_COST
            } else {
                UNREACHED
            }) by {
                if p != *start {
                    assert(cleared.cost_of(p) == UNREACHED);
                }
            }
            assert forall|p: Pos| (#[trigger] self.parent_of(p)).is_none() by {
                assert(cleared.parent_of(p).is_none());
            }
            assert(self.started(*start));
        }
        while searching
            invariant
                rounds.len() > 0,
                rounds[0].started(*start),
                forall|i: int|
                    0 <= i < rounds.len() - 1 ==> #[trigger] Self::round_at(
                        rounds,
                        i,
                        *target,
                        *world,
                        *metric,
                    ),
                searching ==> rounds.last() == *self,
                !searching ==> self.searched_by(rounds, *start, *target, *world, *metric),
                self.searching(*world, *start, steady),
                steady == is_steady(*metric),
                self.dims() == old(self).dims(),
                total_cost(self.costs) >= 0,
                found ==> self.visited(*start, *target),
                steady && searching ==> self.closed_but(*world, *start, None),
                steady && !searching && !found ==> self.open_set@.len() == 0 && self.closed_but(
                    *world,
                    *start,
                    None,
                ),
            decreases self.work_left() + (if searching { 1int } else { 0int }),
        {
            let ghost before = *self;
            match self.open_set.pop() {
                None => {
                    searching = false;
                    proof {
                        assert(self.same_ways(before));
                        lemma_same_maps(before, *self, *world, *start);
                        if steady {
                            assert forall|p: Pos| #[trigger]
                                self.visited(*start, p) implies self.waits(p) || self.surrounded(
                                *world,
                                *start,
                                p,
                            ) by {
                                assert(before.visited(*start, p));
                                if before.waits(p) {
                                    let c = choose|c: Cost| #[trigger]
                                        before.open_set@.count((p, c)) > 0;
                                    assert(self.open_set@.count((p, c)) > 0);
                                }
                            }
                        }
                    }
                },
                Some(current) => {
                    let ghost popped = *self;
                    proof {
                        let cost = choose|cost: Cost|
                            {
                                &&& #[trigger] is_cheapest(
                                    before.open_set@,
                                    (current, cost),
                                )
                                &&& self.open_set@ == before.open_set@.remove((current, cost))
                            };
                        assert(self.same_ways(before));
                        assert(is_cheapest(before.open(), (current, cost)));
                        assert(before.popped(*self, current));
                        assert forall|e: (Pos, Cost)| #[trigger]
                            self.open_set@.count(e) > 0 implies self.visited(*start, e.0) by {
                            assert(before.open_set@.count(e) > 0);
                        }
                        lemma_same_maps(before, *self, *world, *start);
                        if steady {
                            assert forall|p: Pos| #[trigger]
                                self.visited(*start, p) && Some(p) != Some(
                                    current,
                                ) implies self.waits(p) || self.surrounded(*world, *start, p) by {
                                assert(before.visited(*start, p));
                                if before.waits(p) {
                                    let c = choose|c: Cost| #[trigger]
                                        before.open_set@.count((p, c)) > 0;
                                    assert(self.open_set@.count((p, c)) > 0);
                                }
                            }
                        }
                    }
                    if *target == current {
                        searching = false;
                        proof {
                            found = true;
                        }
                    } else {
                        self.expand(
                            &current,
                            target,
                            world,
                            metric,
                            Ghost(*start),
                            Ghost(steady),
                        );
                        proof {
                            let earlier = rounds;
                            let steps = choose|steps: Seq<ThetaStar>| #[trigger]
                                popped.expanded_by(
                                    *self,
                                    steps,
                                    current,
                                    *target,
                                    *world,
                                    *metric,
                                );
                            rounds = rounds.push(*self);
                            assert(popped.expanded_by(
                                rounds[earlier.len() as int],
                                steps,
                                current,
                                *target,
                                *world,
                                *metric,
                            ));
                            assert(rounds[earlier.len() - 1].popped(popped, current));
                            assert forall|i: int| 0 <= i < rounds.len() - 1 implies #[trigger]
                                Self::round_at(rounds, i, *target, *world, *metric) by {
                                if i < earlier.len() - 1 {
                                    assert(Self::round_at(earlier, i, *target, *world, *metric));
                                    assert(earlier[i] == rounds[i] && earlier[i + 1] == rounds[i + 1]);
                                }
                            }
                            if steady {
                                assert forall|p: Pos| #[trigger]
                                    self.visited(*start, p) implies self.waits(p)
                                    || self.surrounded(*world, *start, p) by {
                                    if p == current {
                                    } else if popped.visited(*start, p) {
                                        if popped.waits(p) {
                                            let c = choose|c: Cost| #[trigger]
                                                popped.open_set@.count((p, c)) > 0;
                                            assert(self.open_set@.count((p, c)) > 0);
                                        } else {
                                            assert(popped.surrounded(*world, *start, p));
                                        }
                                    }
                                }
                            }
                        }
                    }
                    proof {
                        lemma_cost_sum_not_negative(
                            self.costs,
                            self.costs.dims().0 * self.costs.dims().1,
                        );
                    }
                },
            }
        }
        proof {
            if route_owed(*world, *start, *target, *metric) && !found {
                // Nothing waits, so the search has come to every free
                // neighbour of every cell that it has come to, and with
                // that to every cell that the lattice reaches.
                assert forall|p: Pos| #[trigger] self.visited(*start, p) implies self.surrounded(
                    *world,
                    *start,
                    p,
                ) by {
                    if self.waits(p) {
                        let c = choose|c: Cost| #[trigger] self.open_set@.count((p, c)) > 0;
                        assert(self.open_set@.len() > 0);
                    }
                }
                let walk = choose|walk: Seq<Pos>| #[trigger] walk_to(*world, *start, walk, *target);
                lemma_walk_is_visited(*self, *world, *start, walk, walk.len() - 1);
            }
        }
        if !self.parents.is_set(target) {
            return None;
        }
        let route = self.reconstruct_path(start, target, world, Ghost(steady));
        proof {
            if obstacle_free(*world) && route.is_some() {
                let cells = (world.dims().0 * world.dims().1) as nat;
                assert(cells > 0) by {
                    lemma_cell_has_slot(self.costs, target.x as int, target.y as int);
                }
                assert(self.way_back(*start, *start, (cells - 1) as nat) == Some(
                    Seq::<Pos>::empty(),
                ));
            }
        }
        route
    }
}

} // verus!
