//! The occupancy grid that the planner searches, and the merge of local
//! observations into it.

use crate::grid::{lemma_shape_fits, shape_fits, TagGrid};
use crate::pos::{Coord, GridCoord, GridPos, Pos};
use vstd::prelude::*;

verus! {

/// The spacing of the lattice that the planner searches, in grid cells.
pub const STEP_SIZE: GridCoord = 4;

/// Tag of a cell that is known to be free.
pub const EMPTY: i64 = 0;

/// Tag of a cell that cannot be entered.
pub const OBSTACLE: i64 = 1;

/// Tag of a cell that holds a gem.
pub const GEM: i64 = 2;

/// Tag of a cell of which nothing is known yet.
pub const NO_INFO: i64 = -1;

/// The map of the world: one tag for each cell.
pub struct World {
    map: TagGrid,
}

/// The four lattice neighbours of `(x, y)`, in the order in which they are
/// tried.
pub open spec fn neighbour_candidates(x: int, y: int) -> Seq<(int, int)> {
    seq![(x + STEP_SIZE, y), (x - STEP_SIZE, y), (x, y + STEP_SIZE), (x, y - STEP_SIZE)]
}

/// `(x1, y1)` is one of the four lattice neighbours of `(x0, y0)`.
pub open spec fn one_step_apart(x0: int, y0: int, x1: int, y1: int) -> bool {
    ||| y1 == y0 && (x1 == x0 + STEP_SIZE || x1 == x0 - STEP_SIZE)
    ||| x1 == x0 && (y1 == y0 + STEP_SIZE || y1 == y0 - STEP_SIZE)
}

/// Where the local map of an observer at `knight` who sees `view_range`
/// cells far begins, along one axis.
pub open spec fn local_start(knight: int, view_range: int) -> int {
    if knight < view_range {
        0
    } else {
        knight - view_range
    }
}

/// The grid positions of `s` as pairs of integers.
pub open spec fn cells_of(s: Seq<GridPos>) -> Seq<(int, int)> {
    s.map_values(|p: GridPos| (p.x as int, p.y as int))
}

/// The multiple of `STEP_SIZE` next to `c` in the direction of zero.
pub open spec fn toward_zero(c: int) -> int {
    if c >= 0 {
        c / (STEP_SIZE as int) * STEP_SIZE
    } else {
        -((-c) / (STEP_SIZE as int) * STEP_SIZE)
    }
}

/// The obstacle at `(a, b)` of the observation `local`, whose corner lies at
/// `(sx, sy)` of the world, is painted over `(x, y)`: `(a, b)` lies in the
/// interior of `local`, half a step off each edge, holds an obstacle, and
/// is no more than half a step away from `(x, y)` along either axis.
pub open spec fn paints_from(
    local: TagGrid,
    sx: int,
    sy: int,
    a: int,
    b: int,
    x: int,
    y: int,
) -> bool {
    &&& STEP_SIZE / 2 <= a < local.dims().0 - STEP_SIZE / 2
    &&& STEP_SIZE / 2 <= b < local.dims().1 - STEP_SIZE / 2
    &&& local.tag_at(a, b) == OBSTACLE
    &&& sx + a - STEP_SIZE / 2 <= x <= sx + a + STEP_SIZE / 2
    &&& sy + b - STEP_SIZE / 2 <= y <= sy + b + STEP_SIZE / 2
}

/// Some obstacle of the observation `local` is painted over `(x, y)`.
pub open spec fn paints(local: TagGrid, sx: int, sy: int, x: int, y: int) -> bool {
    exists|a: int, b: int| paints_from(local, sx, sy, a, b, x, y)
}

/// Some obstacle of `local` that comes before `(row, col)`, row by row, is
/// painted over `(x, y)`.
spec fn paints_before(
    local: TagGrid,
    sx: int,
    sy: int,
    row: int,
    col: int,
    x: int,
    y: int,
) -> bool {
    exists|a: int, b: int|
        #[trigger] paints_from(local, sx, sy, a, b, x, y) && (a < row || (a == row && b < col))
}

/// `map` is `before` with an obstacle wherever `painted` says so.
spec fn merged(before: TagGrid, map: TagGrid, painted: spec_fn(int, int) -> bool) -> bool {
    &&& map.dims() == before.dims()
    &&& forall|x: int, y: int|
        map.inside(x, y) ==> #[trigger] map.tag_at(x, y) == (if painted(x, y) {
            OBSTACLE
        } else {
            before.tag_at(x, y)
        })
}

/// Writes an obstacle into the square of `STEP_SIZE + 1` cells a side around
/// `(cx, cy)`.
fn paint_square(map: &mut TagGrid, cx: usize, cy: usize)
    requires
        STEP_SIZE / 2 <= cx,
        cx + STEP_SIZE / 2 < old(map).dims().0,
        STEP_SIZE / 2 <= cy,
        cy + STEP_SIZE / 2 < old(map).dims().1,
    ensures
        merged(
            *old(map),
            *final(map),
            |x: int, y: int|
                cx - STEP_SIZE / 2 <= x <= cx + STEP_SIZE / 2 && cy - STEP_SIZE / 2 <= y <= cy
                    + STEP_SIZE / 2,
        ),
    no_unwind
{
    let half: usize = STEP_SIZE / 2;
    let (w, h) = map.shape();
    let mut x: usize = cx - half;
    while x <= cx + half
        invariant
            half == STEP_SIZE / 2,
            w == map.dims().0,
            h == map.dims().1,
            half <= cx,
            cx + half < map.dims().0,
            half <= cy,
            cy + half < map.dims().1,
            cx - half <= x <= cx + half + 1,
            merged(
                *old(map),
                *map,
                |i: int, j: int| cx - half <= i < x && cy - half <= j <= cy + half,
            ),
        decreases cx + half + 1 - x,
    {
        let mut y: usize = cy - half;
        while y <= cy + half
            invariant
                half == STEP_SIZE / 2,
                w == map.dims().0,
                h == map.dims().1,
                half <= cx,
                cx + half < map.dims().0,
                half <= cy,
                cy + half < map.dims().1,
                cx - half <= x <= cx + half,
                cy - half <= y <= cy + half + 1,
                merged(
                    *old(map),
                    *map,
                    |i: int, j: int|
                        (cx - half <= i < x && cy - half <= j <= cy + half) || (i == x && cy - half
                            <= j < y),
                ),
            decreases cy + half + 1 - y,
        {
            map.set(x, y, OBSTACLE);
            y += 1;
        }
        x += 1;
    }
}

/// Paints every obstacle in the interior of `local` into `map`, with the
/// corner of `local` at `(sx, sy)`.
fn merge_obstacles(map: &mut TagGrid, local: &TagGrid, sx: usize, sy: usize)
    requires
        local.dims().0 >= STEP_SIZE / 2,
        local.dims().1 >= STEP_SIZE / 2,
        sx + local.dims().0 <= old(map).dims().0,
        sy + local.dims().1 <= old(map).dims().1,
    ensures
        merged(
            *old(map),
            *final(map),
            |x: int, y: int| paints(*local, sx as int, sy as int, x, y),
        ),
        inflated(*old(map)) ==> inflated(*final(map)),
    no_unwind
{
    let half: usize = STEP_SIZE / 2;
    let (lw, lh) = local.shape();
    let (w, h) = map.shape();
    let mut a: usize = half;
    while a < lw - half
        invariant
            half == STEP_SIZE / 2,
            lw == local.dims().0,
            lh == local.dims().1,
            lw >= half,
            lh >= half,
            w == map.dims().0,
            h == map.dims().1,
            sx + lw <= map.dims().0,
            sy + lh <= map.dims().1,
            half <= a,
            merged(
                *old(map),
                *map,
                |x: int, y: int| paints_before(*local, sx as int, sy as int, a as int, 0, x, y),
            ),
        decreases lw - a,
    {
        let mut b: usize = half;
        while b < lh - half
            invariant
                half == STEP_SIZE / 2,
                lw == local.dims().0,
                lh == local.dims().1,
                lw >= half,
                lh >= half,
                w == map.dims().0,
                h == map.dims().1,
                sx + lw <= map.dims().0,
                sy + lh <= map.dims().1,
                half <= a < lw - half,
                half <= b,
                merged(
                    *old(map),
                    *map,
                    |x: int, y: int|
                        paints_before(*local, sx as int, sy as int, a as int, b as int, x, y),
                ),
            decreases lh - b,
        {
            let ghost before = *map;
            let obstacle = match local.get(a, b) {
                Some(t) => t == OBSTACLE,
                None => false,
            };
            if obstacle {
                paint_square(map, sx + a, sy + b);
            }
            proof {
                assert forall|x: int, y: int| map.inside(x, y) implies #[trigger] map.tag_at(x, y)
                    == (if paints_before(
                    *local,
                    sx as int,
                    sy as int,
                    a as int,
                    b as int + 1,
                    x,
                    y,
                ) {
                    OBSTACLE
                } else {
                    old(map).tag_at(x, y)
                }) by {
                    let was = paints_before(*local, sx as int, sy as int, a as int, b as int, x, y);
                    let now = paints_before(
                        *local,
                        sx as int,
                        sy as int,
                        a as int,
                        b as int + 1,
                        x,
                        y,
                    );
                    let here = paints_from(*local, sx as int, sy as int, a as int, b as int, x, y);
                    assert(before.tag_at(x, y) == (if was {
                        OBSTACLE
                    } else {
                        old(map).tag_at(x, y)
                    }));
                    if was {
                        let (a0, b0) = choose|a0: int, b0: int|
                            #[trigger] paints_from(*local, sx as int, sy as int, a0, b0, x, y) && (
                            a0 < a || (a0 == a && b0 < b));
                        assert(paints_from(*local, sx as int, sy as int, a0, b0, x, y) && (a0 < a
                            || (a0 == a && b0 < b + 1)));
                    }
                    if now {
                        let (a0, b0) = choose|a0: int, b0: int|
                            #[trigger] paints_from(*local, sx as int, sy as int, a0, b0, x, y) && (
                            a0 < a || (a0 == a && b0 < b + 1));
                        if !(a0 == a && b0 == b) {
                            assert(paints_from(*local, sx as int, sy as int, a0, b0, x, y) && (a0
                                < a || (a0 == a && b0 < b)));
                        }
                    }
                    assert(now == (was || here));
                }
            }
            b += 1;
        }
        proof {
            assert forall|x: int, y: int| map.inside(x, y) implies #[trigger] map.tag_at(x, y) == (
            if paints_before(*local, sx as int, sy as int, a as int + 1, 0, x, y) {
                OBSTACLE
            } else {
                old(map).tag_at(x, y)
            }) by {
                let was = paints_before(*local, sx as int, sy as int, a as int, b as int, x, y);
                let now = paints_before(*local, sx as int, sy as int, a as int + 1, 0, x, y);
                if was {
                    let (a0, b0) = choose|a0: int, b0: int|
                        #[trigger] paints_from(*local, sx as int, sy as int, a0, b0, x, y) && (a0
                            < a || (a0 == a && b0 < b));
                    assert(paints_from(*local, sx as int, sy as int, a0, b0, x, y) && (a0 < a + 1
                        || (a0 == a + 1 && b0 < 0)));
                }
                if now {
                    let (a0, b0) = choose|a0: int, b0: int|
                        #[trigger] paints_from(*local, sx as int, sy as int, a0, b0, x, y) && (a0
                            < a + 1 || (a0 == a + 1 && b0 < 0));
                    assert(paints_from(*local, sx as int, sy as int, a0, b0, x, y) && (a0 < a || (
                    a0 == a && b0 < b)));
                }
                assert(now == was);
            }
        }
        a += 1;
    }
    proof {
        assert forall|x: int, y: int| map.inside(x, y) implies #[trigger] map.tag_at(x, y) == (
        if paints(*local, sx as int, sy as int, x, y) {
            OBSTACLE
        } else {
            old(map).tag_at(x, y)
        }) by {
            let was = paints_before(*local, sx as int, sy as int, a as int, 0, x, y);
            let now = paints(*local, sx as int, sy as int, x, y);
            if now {
                let (a0, b0) = choose|a0: int, b0: int|
                    paints_from(*local, sx as int, sy as int, a0, b0, x, y);
                assert(paints_from(*local, sx as int, sy as int, a0, b0, x, y) && (a0 < a || (a0
                    == a && b0 < 0)));
            }
            assert(now == was);
        }
        if inflated(*old(map)) {
            lemma_merge_keeps_inflated(*old(map), *map, *local, sx as int, sy as int);
        }
    }
}

/// `(x, y)` is a cell of `map` and holds an obstacle.
spec fn obstacle_in(map: TagGrid, x: int, y: int) -> bool {
    map.inside(x, y) && map.tag_at(x, y) == OBSTACLE
}

/// The square of `STEP_SIZE + 1` cells a side around `(cx, cy)` lies within
/// `map` and holds obstacles only.
spec fn square_around(map: TagGrid, cx: int, cy: int) -> bool {
    forall|x: int, y: int|
        cx - STEP_SIZE / 2 <= x <= cx + STEP_SIZE / 2 && cy - STEP_SIZE / 2 <= y <= cy + STEP_SIZE
            / 2 ==> #[trigger] obstacle_in(map, x, y)
}

/// `(x, y)` lies in a square of obstacles of `STEP_SIZE + 1` cells a side.
spec fn in_square(map: TagGrid, x: int, y: int) -> bool {
    exists|cx: int, cy: int|
        x - STEP_SIZE / 2 <= cx <= x + STEP_SIZE / 2 && y - STEP_SIZE / 2 <= cy <= y + STEP_SIZE
            / 2 && #[trigger] square_around(map, cx, cy)
}

/// Every obstacle of `map` lies in a square of obstacles: obstacles are
/// wider than the gaps of the lattice.
spec fn inflated(map: TagGrid) -> bool {
    forall|x: int, y: int| #[trigger] obstacle_in(map, x, y) ==> in_square(map, x, y)
}

/// Painting obstacles square by square keeps a map inflated.
proof fn lemma_merge_keeps_inflated(before: TagGrid, map: TagGrid, local: TagGrid, sx: int, sy: int)
    requires
        inflated(before),
        0 <= sx,
        0 <= sy,
        sx + local.dims().0 <= before.dims().0,
        sy + local.dims().1 <= before.dims().1,
        merged(before, map, |x: int, y: int| paints(local, sx, sy, x, y)),
    ensures
        inflated(map),
{
    assert forall|x: int, y: int| #[trigger] obstacle_in(map, x, y) implies in_square(
        map,
        x,
        y,
    ) by {
        if paints(local, sx, sy, x, y) {
            let (a, b) = choose|a: int, b: int| paints_from(local, sx, sy, a, b, x, y);
            assert forall|i: int, j: int|
                sx + a - STEP_SIZE / 2 <= i <= sx + a + STEP_SIZE / 2 && sy + b - STEP_SIZE / 2
                    <= j <= sy + b + STEP_SIZE / 2 implies #[trigger] obstacle_in(map, i, j) by {
                assert(paints_from(local, sx, sy, a, b, i, j));
            }
            assert(square_around(map, sx + a, sy + b));
        } else {
            assert(obstacle_in(before, x, y));
            let (cx, cy) = choose|cx: int, cy: int|
                x - STEP_SIZE / 2 <= cx <= x + STEP_SIZE / 2 && y - STEP_SIZE / 2 <= cy <= y
                    + STEP_SIZE / 2 && #[trigger] square_around(before, cx, cy);
            assert forall|i: int, j: int|
                cx - STEP_SIZE / 2 <= i <= cx + STEP_SIZE / 2 && cy - STEP_SIZE / 2 <= j <= cy
                    + STEP_SIZE / 2 implies #[trigger] obstacle_in(map, i, j) by {
                assert(obstacle_in(before, i, j));
            }
            assert(square_around(map, cx, cy));
        }
    }
}

impl World {
    /// What holds of every world: both axes are a whole number of steps
    /// long, the map fits in memory, and every obstacle lies in a square of
    /// obstacles of `STEP_SIZE + 1` cells a side.
    #[verifier::type_invariant]
    pub closed spec fn valid(self) -> bool {
        &&& self.map.dims().0 % (STEP_SIZE as nat) == 0
        &&& self.map.dims().1 % (STEP_SIZE as nat) == 0
        &&& shape_fits(self.map.dims().0 as int, self.map.dims().1 as int)
        &&& inflated(self.map)
    }

    /// An obstacle on the way from `(x0, y)` to the cell a step further
    /// along x reaches one of the two.
    pub proof fn lemma_obstacle_spans_step_x(self, x: int, y: int, x0: int)
        requires
            self.valid(),
            self.blocked(x, y),
            x0 <= x <= x0 + STEP_SIZE,
        ensures
            self.blocked(x0, y) || self.blocked(x0 + STEP_SIZE, y),
    {
        assert(obstacle_in(self.map, x, y));
        let (cx, cy) = choose|cx: int, cy: int|
            x - STEP_SIZE / 2 <= cx <= x + STEP_SIZE / 2 && y - STEP_SIZE / 2 <= cy <= y
                + STEP_SIZE / 2 && #[trigger] square_around(self.map, cx, cy);
        if cx - STEP_SIZE / 2 <= x0 {
            assert(obstacle_in(self.map, x0, y));
        } else {
            assert(obstacle_in(self.map, x0 + STEP_SIZE, y));
        }
    }

    /// An obstacle on the way from `(x, y0)` to the cell a step further
    /// along y reaches one of the two.
    pub proof fn lemma_obstacle_spans_step_y(self, x: int, y: int, y0: int)
        requires
            self.valid(),
            self.blocked(x, y),
            y0 <= y <= y0 + STEP_SIZE,
        ensures
            self.blocked(x, y0) || self.blocked(x, y0 + STEP_SIZE),
    {
        assert(obstacle_in(self.map, x, y));
        let (cx, cy) = choose|cx: int, cy: int|
            x - STEP_SIZE / 2 <= cx <= x + STEP_SIZE / 2 && y - STEP_SIZE / 2 <= cy <= y
                + STEP_SIZE / 2 && #[trigger] square_around(self.map, cx, cy);
        if cy - STEP_SIZE / 2 <= y0 {
            assert(obstacle_in(self.map, x, y0));
        } else {
            assert(obstacle_in(self.map, x, y0 + STEP_SIZE));
        }
    }

    /// The lengths of the two axes.
    pub closed spec fn dims(&self) -> (nat, nat) {
        self.map.dims()
    }

    /// The tag at `(x, y)`; meaningful inside the world only.
    pub closed spec fn tag_at(&self, x: int, y: int) -> i64 {
        self.map.tag_at(x, y)
    }

    /// `(x, y)` is a cell of the world.
    pub open spec fn inside(&self, x: int, y: int) -> bool {
        0 <= x < self.dims().0 && 0 <= y < self.dims().1
    }

    /// `(x, y)` is a cell of the world and holds an obstacle.
    pub open spec fn blocked(&self, x: int, y: int) -> bool {
        self.inside(x, y) && self.tag_at(x, y) == OBSTACLE
    }

    /// `(x, y)` is a cell of the world and holds no obstacle.
    pub open spec fn free(&self, x: int, y: int) -> bool {
        self.inside(x, y) && self.tag_at(x, y) != OBSTACLE
    }

    /// The candidate `c`, if it is free, and nothing otherwise.
    pub open spec fn kept(&self, c: (int, int)) -> Seq<(int, int)> {
        if self.free(c.0, c.1) {
            seq![c]
        } else {
            seq![]
        }
    }

    /// The free lattice neighbours of `(x, y)`, in the order of
    /// `neighbour_candidates`.
    pub open spec fn free_neighbours(&self, x: int, y: int) -> Seq<(int, int)> {
        let c = neighbour_candidates(x, y);
        self.kept(c[0]) + self.kept(c[1]) + self.kept(c[2]) + self.kept(c[3])
    }

    /// A world of the given shape, of which nothing is known yet.
    pub fn new(shape: (usize, usize)) -> (world: Self)
        requires
            shape.0 % STEP_SIZE == 0,
            shape.1 % STEP_SIZE == 0,
            shape_fits(shape.0 as int, shape.1 as int),
        ensures
            world.valid(),
            world.dims() == (shape.0 as nat, shape.1 as nat),
            forall|x: int, y: int| world.inside(x, y) ==> #[trigger] world.tag_at(x, y) == NO_INFO,
    {
        World { map: TagGrid::new(shape, NO_INFO) }
    }

    /// The lengths of the two axes, both multiples of `STEP_SIZE`.
    pub fn shape(&self) -> (s: (usize, usize))
        ensures
            s.0 == self.dims().0,
            s.1 == self.dims().1,
            s.0 % STEP_SIZE == 0,
            s.1 % STEP_SIZE == 0,
            shape_fits(s.0 as int, s.1 as int),
            self.valid(),
    {
        proof {
            use_type_invariant(self);
        }
        self.map.shape()
    }

    /// Whether `(x, y)` is in bounds and holds an obstacle.
    pub fn is_obstacle_coords(&self, x: GridCoord, y: GridCoord) -> (r: bool)
        ensures
            r == self.blocked(x as int, y as int),
    {
        match self.map.get(x, y) {
            Some(t) => t == OBSTACLE,
            None => false,
        }
    }

    /// Whether `pos` is in bounds and holds an obstacle.
    pub fn is_obstacle(&self, pos: GridPos) -> (r: bool)
        ensures
            r == self.blocked(pos.x as int, pos.y as int),
    {
        self.is_obstacle_coords(pos.x, pos.y)
    }

    /// Whether `pos` holds an obstacle or lies out of bounds.
    pub fn is_obstacle_or_out(&self, pos: GridPos) -> (r: bool)
        ensures
            r == !self.free(pos.x as int, pos.y as int),
    {
        match self.map.get(pos.x, pos.y) {
            Some(t) => t == OBSTACLE,
            None => true,
        }
    }

    /// Whether `pos` is a cell of the world.
    pub fn in_bounds(&self, pos: &GridPos) -> (r: bool)
        ensures
            r == self.inside(pos.x as int, pos.y as int),
    {
        let (w, h) = self.map.shape();
        pos.x < w && pos.y < h
    }

    /// Appends `(x, y)` to `found` if both coordinates exist and the cell
    /// is free.
    fn push_if_free(&self, x: Option<GridCoord>, y: Option<GridCoord>, found: &mut Vec<GridPos>)
        ensures
            cells_of(final(found)@) == cells_of(old(found)@) + (match (x, y) {
                (Some(x), Some(y)) => self.kept((x as int, y as int)),
                _ => Seq::empty(),
            }),
    {
        if let (Some(x), Some(y)) = (x, y) {
            let p = GridPos::new(x, y);
            if !self.is_obstacle_or_out(p) {
                found.push(p);
            }
        }
    }

    /// Every free lattice neighbour of `(x, y)` is among its free
    /// neighbours.
    pub proof fn lemma_free_neighbour_is_listed(self, x: int, y: int, qx: int, qy: int)
        requires
            one_step_apart(x, y, qx, qy),
            self.free(qx, qy),
        ensures
            self.free_neighbours(x, y).contains((qx, qy)),
    {
        let c = neighbour_candidates(x, y);
        let all = self.free_neighbours(x, y);
        let n0 = self.kept(c[0]).len() as int;
        let n1 = self.kept(c[1]).len() as int;
        let n2 = self.kept(c[2]).len() as int;
        if (qx, qy) == c[0] {
            assert(all[0] == (qx, qy));
        } else if (qx, qy) == c[1] {
            assert(all[n0] == (qx, qy));
        } else if (qx, qy) == c[2] {
            assert(all[n0 + n1] == (qx, qy));
        } else {
            assert((qx, qy) == c[3]);
            assert(all[n0 + n1 + n2] == (qx, qy));
        }
    }

    /// The lattice neighbours of `pos` that are in bounds and hold no
    /// obstacle: of `(x + STEP_SIZE, y)`, `(x - STEP_SIZE, y)`,
    /// `(x, y + STEP_SIZE)` and `(x, y - STEP_SIZE)`, in this order, those
    /// that are free. A neighbour whose coordinate would be negative is out
    /// of bounds like any other.
    pub fn free_neighbours_of(&self, pos: &GridPos) -> (found: Vec<GridPos>)
        ensures
            cells_of(found@) == self.free_neighbours(pos.x as int, pos.y as int),
            forall|i: int|
                0 <= i < found.len() ==> self.free(
                    (#[trigger] found[i]).x as int,
                    found[i].y as int,
                ) && one_step_apart(
                    pos.x as int,
                    pos.y as int,
                    found[i].x as int,
                    found[i].y as int,
                ),
    {
        proof {
            // A neighbour beyond `usize::MAX` lies beyond the world.
            use_type_invariant(self);
            lemma_shape_fits(self.map.dims().0 as int, self.map.dims().1 as int);
        }
        let mut found = Vec::new();
        self.push_if_free(pos.x.checked_add(STEP_SIZE), Some(pos.y), &mut found);
        self.push_if_free(pos.x.checked_sub(STEP_SIZE), Some(pos.y), &mut found);
        self.push_if_free(Some(pos.x), pos.y.checked_add(STEP_SIZE), &mut found);
        self.push_if_free(Some(pos.x), pos.y.checked_sub(STEP_SIZE), &mut found);
        proof {
            let c = neighbour_candidates(pos.x as int, pos.y as int);
            let want = self.free_neighbours(pos.x as int, pos.y as int);
            assert(cells_of(found@) =~= want);
            assert forall|i: int| 0 <= i < found.len() implies self.free(
                (#[trigger] found[i]).x as int,
                found[i].y as int,
            ) && one_step_apart(
                pos.x as int,
                pos.y as int,
                found[i].x as int,
                found[i].y as int,
            ) by {
                assert(want[i] == c[0] || want[i] == c[1] || want[i] == c[2] || want[i] == c[3]);
            }
        }
        found
    }

    /// The centre of the lattice square that holds `pos`: each coordinate
    /// is cut down to a multiple of `STEP_SIZE`, towards zero, and moved
    /// half a step up.
    pub fn closest_on_grid(pos: &Pos) -> (p: Pos)
        ensures
            p.x == toward_zero(pos.x as int) + STEP_SIZE / 2,
            p.y == toward_zero(pos.y as int) + STEP_SIZE / 2,
    {
        let step: Coord = 4;
        Pos::new(pos.x / step * step + step / 2, pos.y / step * step + step / 2)
    }

    /// Where the local map of an observer at `knight_pos` who sees
    /// `view_range` cells far begins: `view_range` cells before the
    /// observer along each axis, and no further than the edge of the world.
    fn local_map_start(knight_pos: GridPos, view_range: usize) -> (start: (usize, usize))
        ensures
            start.0 == local_start(knight_pos.x as int, view_range as int),
            start.1 == local_start(knight_pos.y as int, view_range as int),
    {
        let start_x = if knight_pos.x < view_range {
            0
        } else {
            knight_pos.x - view_range
        };
        let start_y = if knight_pos.y < view_range {
            0
        } else {
            knight_pos.y - view_range
        };
        (start_x, start_y)
    }

    /// Merges what an observer at `knight_pos` sees into the world.
    /// `local_map` lies over the world with its first cell at
    /// `local_start` of the observer's position. Every obstacle in its
    /// interior, half a step off each edge, becomes a square of obstacles of
    /// `STEP_SIZE + 1` cells a side in the world; no other cell changes, and
    /// no other tag of `local_map` is copied.
    pub fn incorporate(&mut self, local_map: &TagGrid, knight_pos: GridPos, view_range: usize)
        requires
            local_map.dims().0 >= STEP_SIZE / 2,
            local_map.dims().1 >= STEP_SIZE / 2,
            local_start(knight_pos.x as int, view_range as int) + local_map.dims().0 <= old(
                self,
            ).dims().0,
            local_start(knight_pos.y as int, view_range as int) + local_map.dims().1 <= old(
                self,
            ).dims().1,
        ensures
            final(self).valid(),
            final(self).dims() == old(self).dims(),
            forall|x: int, y: int|
                final(self).inside(x, y) ==> #[trigger] final(self).tag_at(x, y) == (if paints(
                    *local_map,
                    local_start(knight_pos.x as int, view_range as int),
                    local_start(knight_pos.y as int, view_range as int),
                    x,
                    y,
                ) {
                    OBSTACLE
                } else {
                    old(self).tag_at(x, y)
                }),
    {
        proof {
            use_type_invariant(&*self);
        }
        let (start_x, start_y) = Self::local_map_start(knight_pos, view_range);
        merge_obstacles(&mut self.map, local_map, start_x, start_y);
    }

    /// A copy of the map, one vector of tags for each `x`.
    pub fn get_map(&self) -> (rows: Vec<Vec<i64>>)
        ensures
            rows.len() == self.dims().0,
            forall|x: int| 0 <= x < rows.len() ==> (#[trigger] rows[x]).len() == self.dims().1,
            forall|x: int, y: int|
                self.inside(x, y) ==> #[trigger] rows[x][y] == self.tag_at(x, y),
    {
        let (w, h) = self.map.shape();
        let mut rows: Vec<Vec<i64>> = Vec::new();
        let mut x: usize = 0;
        while x < w
            invariant
                w == self.dims().0,
                h == self.dims().1,
                x <= w,
                rows.len() == x,
                forall|i: int| 0 <= i < x ==> (#[trigger] rows[i]).len() == h,
                forall|i: int, j: int|
                    0 <= i < x && 0 <= j < h ==> #[trigger] rows[i][j] == self.tag_at(i, j),
            decreases w - x,
        {
            let mut row: Vec<i64> = Vec::new();
            let mut y: usize = 0;
            while y < h
                invariant
                    w == self.dims().0,
                    h == self.dims().1,
                    x < w,
                    y <= h,
                    row.len() == y,
                    forall|j: int| 0 <= j < y ==> #[trigger] row[j] == self.tag_at(x as int, j),
                decreases h - y,
            {
                let t = match self.map.get(x, y) {
                    Some(t) => t,
                    None => NO_INFO,
                };
                row.push(t);
                y += 1;
            }
            rows.push(row);
            x += 1;
        }
        rows
    }

    /// The tag at `pos`, or `None` out of bounds.
    pub fn tag(&self, pos: GridPos) -> (t: Option<i64>)
        ensures
            t == (if self.inside(pos.x as int, pos.y as int) {
                Some(self.tag_at(pos.x as int, pos.y as int))
            } else {
                None
            }),
    {
        self.map.get(pos.x, pos.y)
    }
}

} // verus!
