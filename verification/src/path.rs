//! The follower: it owns the route to the target, hands out the next
//! waypoint tick by tick, and plans anew when asked to.

pub mod bresenham;
pub mod theta_star;

use crate::metric::{says_near, Metric};
use crate::path::theta_star::{
    cell_inside, is_route, obstacle_free, reachable, route_owed, ThetaStar,
};
use crate::pos::{converts_to, IntoPos, Pos};
use crate::world::World;
use vstd::prelude::*;

verus! {

/// The sum of the differences of the coordinates of `a` and `b`, each taken
/// with its sign.
pub fn manhattan_distance(a: &Pos, b: &Pos) -> (d: i64)
    requires
        i64::MIN <= a.x - b.x <= i64::MAX,
        i64::MIN <= a.y - b.y <= i64::MAX,
        i64::MIN <= (a.x - b.x) + (a.y - b.y) <= i64::MAX,
    ensures
        d == (a.x - b.x) + (a.y - b.y),
{
    (a.x - b.x) + (a.y - b.y)
}

/// What a follower knows, apart from the scratch space of its planner.
pub struct PathView<W> {
    /// The target as a cell.
    pub target: Pos,
    /// The target as it was given.
    pub world_target: W,
    /// The waypoints still ahead, the next one last.
    pub waypoints: Seq<W>,
    /// How many calls of `next` from now the route is planned anew.
    pub recompute_in: int,
}

/// The follower of one agent.
pub struct Path<W> {
    /// Target of the path in internal coordinates.
    target: Pos,
    /// Precise target in world coordinates.
    world_target: W,
    /// Current path in reverse order.
    path: Vec<W>,
    pathfinder: ThetaStar,
    /// Recompute the path in this many calls to next.
    recompute_in: i32,
}

/// What a follower knows after it was given the target `target`, which
/// lies in the cell `cell`.
pub open spec fn after_set_target<W>(before: PathView<W>, target: W, cell: Pos) -> PathView<W> {
    PathView { target: cell, world_target: target, waypoints: before.waypoints, recompute_in: 0 }
}

/// A call of `set_target` with `target` has made `after` of `before`.
pub open spec fn target_set<W: IntoPos<Pos>>(
    before: PathView<W>,
    after: PathView<W>,
    target: W,
) -> bool {
    converts_to(target, after.target) && after == after_set_target(before, target, after.target)
}

/// The conversion of points to cells is a function: a point has one cell.
pub open spec fn has_one_cell<W: IntoPos<Pos>>() -> bool {
    forall|point: W, a: Pos, b: Pos|
        #[trigger] converts_to(point, a) && #[trigger] converts_to(point, b) ==> a == b
}

/// To give a follower the target that it has already been given changes
/// nothing: what it knows, and with that what the next call of `next` goes
/// by, is the same after two calls of `set_target` as after one.
pub proof fn lemma_set_target_is_idempotent<W: IntoPos<Pos>>(
    before: PathView<W>,
    once: PathView<W>,
    twice: PathView<W>,
    target: W,
)
    requires
        has_one_cell::<W>(),
        target_set(before, once, target),
        target_set(once, twice, target),
    ensures
        twice == once,
{
}

/// `waypoints` stands for `cells` in the plane: it has a point for each
/// cell, the exact target `world_target` for the first and for every other
/// what the cell converts to.
pub open spec fn lifted<W>(cells: Seq<Pos>, world_target: W, waypoints: Seq<W>) -> bool where
    Pos: IntoPos<W>,
 {
    &&& waypoints.len() == cells.len()
    &&& cells.len() > 0 ==> waypoints[0] == world_target
    &&& forall|i: int| 0 < i < cells.len() ==> converts_to(cells[i], #[trigger] waypoints[i])
}

/// `waypoints` is a route through `world` from the cell `start` to the
/// target of `view`, in the plane. In a world without obstacles it is the
/// target alone.
pub open spec fn is_fresh_route<W>(
    world: World,
    start: Pos,
    view: PathView<W>,
    waypoints: Seq<W>,
) -> bool where Pos: IntoPos<W> {
    &&& exists|cells: Seq<Pos>|
        #[trigger] is_route(world, start, view.target, cells) && lifted(
            cells,
            view.world_target,
            waypoints,
        )
    &&& obstacle_free(world) ==> waypoints == seq![view.world_target]
}

/// The follower goes by the route that it has: it has one, and none is
/// due.
pub open spec fn keeps_route<W>(view: PathView<W>) -> bool {
    view.recompute_in != 0 && view.waypoints.len() > 0
}

/// `left` is what is left of `route` for an agent at `pos`: the waypoints
/// at the end of `route` of which `metric` says that they lie within one
/// step of `pos` are dropped, up to the first of which it says otherwise.
pub open spec fn dropped<W, M: Metric<Point = W>>(
    route: Seq<W>,
    left: Seq<W>,
    pos: W,
    metric: M,
) -> bool {
    &&& left.is_prefix_of(route)
    &&& forall|i: int|
        left.len() <= i < route.len() ==> says_near(metric, #[trigger] route[i], pos, true)
    &&& left.len() > 0 ==> says_near(metric, left.last(), pos, false)
}

/// A call of `next` by an agent at `current` has counted itself, gone by
/// the route `planned`, dropped the waypoints at the end of it that the
/// agent has come to, and answered the last that is left.
pub open spec fn follows<W, M: Metric<Point = W>>(
    before: PathView<W>,
    after: PathView<W>,
    planned: Seq<W>,
    current: W,
    metric: M,
    answer: Option<W>,
) -> bool {
    &&& after.target == before.target
    &&& after.world_target == before.world_target
    &&& after.recompute_in == before.recompute_in - 1
    &&& dropped(planned, after.waypoints, current, metric)
    &&& answer == (if after.waypoints.len() > 0 {
        Some(after.waypoints.last())
    } else {
        None
    })
}

/// `planned` is what a follower that plans anew goes by, with an agent in
/// the cell `start`: a fresh route from `start`, or nothing where none is
/// owed.
pub open spec fn is_plan_from<W, M: Metric<Point = W>>(
    world: World,
    start: Pos,
    before: PathView<W>,
    metric: M,
    planned: Seq<W>,
) -> bool where Pos: IntoPos<W> {
    if planned.len() == 0 {
        !route_owed(world, start, before.target, metric)
    } else {
        is_fresh_route(world, start, before, planned)
    }
}

/// `planned` is what a follower that plans anew goes by, with an agent at
/// `current`: a plan from a cell of `current`.
pub open spec fn is_plan<W, M: Metric<Point = W>>(
    world: World,
    current: W,
    before: PathView<W>,
    metric: M,
    planned: Seq<W>,
) -> bool where W: IntoPos<Pos>, Pos: IntoPos<W> {
    exists|start: Pos|
        #[trigger] converts_to(current, start) && is_plan_from(
            world,
            start,
            before,
            metric,
            planned,
        )
}

/// A call of `next` by an agent at `current` may plan: `metric` may say
/// that the agent is not within one step of the target, and the follower
/// does not go by the route that it has.
pub open spec fn may_plan<W, M: Metric<Point = W>>(
    before: PathView<W>,
    current: W,
    metric: M,
) -> bool {
    says_near(metric, current, before.world_target, false) && !keeps_route(before)
}

/// What a call of `next` by an agent at `current` makes of what the
/// follower knows, and what it answers.
///
/// Where `metric` says that the agent is within one step of the target, it
/// answers `None` and changes nothing. Where `metric` says that it is not,
/// it goes by the route that it has, or where that is due or missing by a
/// plan.
pub open spec fn answers<W, M: Metric<Point = W>>(
    before: PathView<W>,
    after: PathView<W>,
    world: World,
    current: W,
    metric: M,
    answer: Option<W>,
) -> bool where W: IntoPos<Pos>, Pos: IntoPos<W> {
    ||| {
        &&& says_near(metric, current, before.world_target, true)
        &&& answer.is_none()
        &&& after == before
    }
    ||| {
        &&& says_near(metric, current, before.world_target, false)
        &&& keeps_route(before)
        &&& follows(before, after, before.waypoints, current, metric, answer)
    }
    ||| {
        &&& says_near(metric, current, before.world_target, false)
        &&& !keeps_route(before)
        &&& exists|planned: Seq<W>|
            #[trigger] follows(before, after, planned, current, metric, answer) && is_plan(
                world,
                current,
                before,
                metric,
                planned,
            )
    }
}

/// A follower that goes by the route that it has does not go back on it:
/// what it answers is a waypoint of that route, and the route that is left
/// ends with it.
pub proof fn lemma_follower_does_not_go_back<W, M: Metric<Point = W>>(
    before: PathView<W>,
    after: PathView<W>,
    world: World,
    current: W,
    metric: M,
    answer: Option<W>,
) where W: IntoPos<Pos>, Pos: IntoPos<W>
    requires
        keeps_route(before),
        answers(before, after, world, current, metric, answer),
        answer.is_some(),
    ensures
        0 < after.waypoints.len() <= before.waypoints.len(),
        answer == Some(before.waypoints[after.waypoints.len() - 1]),
        after.waypoints == before.waypoints.subrange(0, after.waypoints.len() as int),
{
}

impl<W> Path<W> where W: Copy + IntoPos<Pos>, Pos: IntoPos<W> {
    /// The planner fits the worlds it is used with.
    pub closed spec fn wf(&self) -> bool {
        self.pathfinder.wf()
    }

    /// The shape of the worlds that the follower can be used with.
    pub closed spec fn dims(&self) -> (nat, nat) {
        self.pathfinder.dims()
    }

    /// What the follower knows.
    pub closed spec fn view(&self) -> PathView<W> {
        PathView {
            target: self.target,
            world_target: self.world_target,
            waypoints: self.path@,
            recompute_in: self.recompute_in as int,
        }
    }

    /// A follower for worlds of the shape of `world`, with the origin for
    /// its target and no route.
    pub fn new(world: &World) -> (follower: Self)
        ensures
            follower.wf(),
            follower.dims() == world.dims(),
            follower.view().target == (Pos { x: 0, y: 0 }),
            converts_to(Pos { x: 0, y: 0 }, follower.view().world_target),
            follower.view().waypoints.len() == 0,
            follower.view().recompute_in == 0,
    {
        Self {
            target: Pos::origin(),
            world_target: IntoPos::<W>::into_pos(Pos::origin()),
            path: Vec::with_capacity(512),
            pathfinder: ThetaStar::new(world),
            recompute_in: 0,
        }
    }

    /// In how many calls of `next` the route is planned anew; below zero
    /// where no such call is due.
    pub fn recompute_in(&self) -> (turns: i32)
        ensures
            turns == self.view().recompute_in,
    {
        self.recompute_in
    }

    /// Whether the follower has waypoints ahead.
    pub fn has_route(&self) -> (r: bool)
        ensures
            r == (self.view().waypoints.len() > 0),
    {
        self.path.len() > 0
    }

    /// Gives the follower a target. The route is planned anew at the next
    /// call of `next`.
    pub fn set_target(&mut self, target: W)
        requires
            old(self).wf(),
        ensures
            final(self).wf(),
            final(self).dims() == old(self).dims(),
            target_set(old(self).view(), final(self).view(), target),
    {
        self.world_target = target;
        self.target = IntoPos::<Pos>::into_pos(self.world_target);
        self.recompute_in = 0;
    }

    /// Where the agent is and where it should go next: the next waypoint
    /// of the route, or `None` where the agent is within one step of the
    /// target or no route leads there.
    ///
    /// A route that is due, after `set_target` or a turn after
    /// `recompute_in_one_turn`, or missing is planned first. A target out
    /// of bounds or out of reach of the lattice then gives `None`.
    pub fn next<M: Metric<Point = W>>(&mut self, current: W, world: &World, metric: &M) -> (answer:
        Option<W>)
        requires
            old(self).wf(),
            old(self).dims() == world.dims(),
            says_near(*metric, current, old(self).view().world_target, false) ==> old(
                self,
            ).view().recompute_in > i32::MIN,
            may_plan(old(self).view(), current, *metric) && cell_inside(
                *world,
                old(self).view().target,
            ) ==> forall|cell: Pos| #[trigger]
                converts_to(current, cell) ==> cell_inside(*world, cell),
        ensures
            final(self).wf(),
            final(self).dims() == old(self).dims(),
            answers(old(self).view(), final(self).view(), *world, current, *metric, answer),
            old(self).view().recompute_in == 0 && !cell_inside(*world, old(self).view().target)
                ==> answer.is_none(),
            old(self).view().recompute_in == 0 && (forall|start: Pos| #[trigger]
                converts_to(current, start) ==> !reachable(
                    *world,
                    start,
                    old(self).view().target,
                )) ==> answer.is_none(),
    {
        self.next_impl(&current, world, metric)
    }

    /// What `next` does, for an agent whose position is borrowed.
    fn next_impl<M: Metric<Point = W>>(&mut self, current: &W, world: &World, metric: &M) -> (answer:
        Option<W>)
        requires
            old(self).wf(),
            old(self).dims() == world.dims(),
            says_near(*metric, *current, old(self).view().world_target, false) ==> old(
                self,
            ).view().recompute_in > i32::MIN,
            may_plan(old(self).view(), *current, *metric) && cell_inside(
                *world,
                old(self).view().target,
            ) ==> forall|cell: Pos| #[trigger]
                converts_to(*current, cell) ==> cell_inside(*world, cell),
        ensures
            final(self).wf(),
            final(self).dims() == old(self).dims(),
            answers(old(self).view(), final(self).view(), *world, *current, *metric, answer),
            old(self).view().recompute_in == 0 && !cell_inside(*world, old(self).view().target)
                ==> answer.is_none(),
            old(self).view().recompute_in == 0 && (forall|start: Pos| #[trigger]
                converts_to(*current, start) ==> !reachable(
                    *world,
                    start,
                    old(self).view().target,
                )) ==> answer.is_none(),
    {
        if metric.within_one_step(current, &self.world_target) {
            return None;
        }
        if self.recompute_in == 0 {
            self.path.clear();
        }
        self.recompute_in -= 1;
        let ghost mid = self.view();
        let ghost mut start: Pos = Pos { x: 0, y: 0 };
        if self.path.len() == 0 {
            let cell = self.find_path(current, world, metric);
            proof {
                start = cell;
            }
        }
        let ghost planned = self.path@;
        self.drop_until_not_at(current, metric);
        let answer = if self.path.len() > 0 {
            Some(self.path[self.path.len() - 1])
        } else {
            None
        };
        proof {
            assert(follows(old(self).view(), self.view(), planned, *current, *metric, answer));
            if !keeps_route(old(self).view()) && planned.len() > 0 {
                // The route is fresh: it was planned for the target that
                // the follower had at the call, which the lattice reaches.
                let cells = choose|cells: Seq<Pos>|
                    #[trigger] is_route(*world, start, mid.target, cells) && lifted(
                        cells,
                        mid.world_target,
                        planned,
                    );
                assert(is_fresh_route(*world, start, old(self).view(), planned));
                assert(reachable(*world, start, cells[0]));
            }
        }
        answer
    }

    /// Drops the waypoints at the end of the route that lie within one
    /// step of `pos`: the agent is as good as there.
    fn drop_until_not_at<M: Metric<Point = W>>(&mut self, pos: &W, metric: &M)
        requires
            old(self).wf(),
        ensures
            final(self).wf(),
            final(self).dims() == old(self).dims(),
            final(self).view() == (PathView {
                waypoints: final(self).view().waypoints,
                ..old(self).view()
            }),
            dropped(old(self).view().waypoints, final(self).view().waypoints, *pos, *metric),
    {
        let mut dropping = true;
        while dropping
            invariant
                self.wf(),
                self.dims() == old(self).dims(),
                self.view() == (PathView { waypoints: self.view().waypoints, ..old(self).view() }),
                self.view().waypoints.is_prefix_of(old(self).view().waypoints),
                forall|i: int|
                    self.path.len() <= i < old(self).view().waypoints.len() ==> says_near(
                        *metric,
                        #[trigger] old(self).view().waypoints[i],
                        *pos,
                        true,
                    ),
                !dropping && self.path.len() > 0 ==> says_near(
                    *metric,
                    self.path@.last(),
                    *pos,
                    false,
                ),
            decreases self.path.len() + (if dropping { 1int } else { 0int }),
        {
            if self.path.len() == 0 {
                dropping = false;
            } else {
                let top = self.path[self.path.len() - 1];
                if metric.within_one_step(&top, pos) {
                    self.path.pop();
                } else {
                    dropping = false;
                }
            }
        }
    }

    /// Plans a route from `start` to the target and takes it for the
    /// route, with the exact target for its last waypoint. Where there is
    /// no route it leaves what it has. It tells the cell of `start`.
    fn find_path<M: Metric<Point = W>>(&mut self, start: &W, world: &World, metric: &M) -> (cell:
        Pos)
        requires
            old(self).wf(),
            old(self).dims() == world.dims(),
            cell_inside(*world, old(self).view().target) ==> forall|cell: Pos| #[trigger]
                converts_to(*start, cell) ==> cell_inside(*world, cell),
        ensures
            final(self).wf(),
            final(self).dims() == old(self).dims(),
            converts_to(*start, cell),
            final(self).view() == (PathView {
                waypoints: final(self).view().waypoints,
                ..old(self).view()
            }),
            final(self).view().waypoints == old(self).view().waypoints || is_fresh_route(
                *world,
                cell,
                old(self).view(),
                final(self).view().waypoints,
            ),
            route_owed(*world, cell, old(self).view().target, *metric) ==> is_fresh_route(
                *world,
                cell,
                old(self).view(),
                final(self).view().waypoints,
            ),
    {
        let start_cell = IntoPos::<Pos>::into_pos(*start);
        assert(converts_to(*start, start_cell));
        match self.pathfinder.find_path(&start_cell, &self.target, world, metric) {
            None => {},
            Some(cells) => {
                let mut path: Vec<W> = Vec::with_capacity(cells.len());
                let mut i: usize = 0;
                while i < cells.len()
                    invariant
                        i <= cells.len(),
                        path.len() == i,
                        forall|k: int| 0 <= k < i ==> converts_to(cells[k], #[trigger] path[k]),
                    decreases cells.len() - i,
                {
                    path.push(IntoPos::<W>::into_pos(cells[i]));
                    i += 1;
                }
                // Make sure the target is precise.
                path[0] = self.world_target;
                self.path = path;
                proof {
                    assert(lifted(cells@, self.world_target, self.path@));
                    if obstacle_free(*world) {
                        assert(self.path@ =~= seq![self.world_target]);
                    }
                }
            },
        }
        start_cell
    }

    /// Forgets the route, so that the next call of `next` plans anew.
    pub fn clear_path(&mut self)
        requires
            old(self).wf(),
        ensures
            final(self).wf(),
            final(self).dims() == old(self).dims(),
            final(self).view() == (PathView { waypoints: Seq::empty(), ..old(self).view() }),
    {
        self.path.clear();
    }

    /// Lets the next call of `next` go by the route as it is, and the one
    /// after it plan anew.
    pub fn recompute_in_one_turn(&mut self)
        requires
            old(self).wf(),
        ensures
            final(self).wf(),
            final(self).dims() == old(self).dims(),
            final(self).view() == (PathView { recompute_in: 1, ..old(self).view() }),
    {
        self.recompute_in = 1;
    }
}

} // verus!
