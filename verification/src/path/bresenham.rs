//! Collision detection along the line that Bresenham's algorithm draws
//! between two cells.

use crate::pos::Pos;
use crate::world::World;
use vstd::arithmetic::div_mod::lemma_fundamental_div_mod_converse;
use vstd::prelude::*;

verus! {

/// The distance between two coordinates.
pub open spec fn span(a: int, b: int) -> int {
    if a > b {
        a - b
    } else {
        b - a
    }
}

/// How far a line that rises by `minor` over a run of `major` has risen
/// after `k` steps of the run: `k * minor / major`, rounded to the nearest
/// integer, and down where it lies halfway.
pub open spec fn minor_steps(k: int, major: int, minor: int) -> int {
    if major > 0 {
        (2 * k * minor + major - 1) / (2 * major)
    } else {
        0
    }
}

/// The cell number `k` of the line from `a` to `b`, where `b` lies right
/// of `a` and the line is flatter than the diagonal.
pub open spec fn low_cell(a: Pos, b: Pos, k: int) -> (int, int) {
    let m = minor_steps(k, b.x - a.x, span(a.y as int, b.y as int));
    (
        a.x + k,
        if a.y > b.y {
            a.y - m
        } else {
            a.y + m
        },
    )
}

/// The cell number `k` of the line from `a` to `b`, where `b` lies above
/// `a` and the line is no flatter than the diagonal.
pub open spec fn high_cell(a: Pos, b: Pos, k: int) -> (int, int) {
    let m = minor_steps(k, b.y - a.y, span(a.x as int, b.x as int));
    (
        if a.x > b.x {
            a.x - m
        } else {
            a.x + m
        },
        a.y + k,
    )
}

/// The cell number `k` of the flat line from `a` to `b` holds an obstacle.
pub open spec fn low_hit(a: Pos, b: Pos, world: World, k: int) -> bool {
    world.blocked(low_cell(a, b, k).0, low_cell(a, b, k).1)
}

/// The cell number `k` of the steep line from `a` to `b` holds an obstacle.
pub open spec fn high_hit(a: Pos, b: Pos, world: World, k: int) -> bool {
    world.blocked(high_cell(a, b, k).0, high_cell(a, b, k).1)
}

/// Some cell of the flat line from `a` to `b`, both ends included, holds an
/// obstacle.
pub open spec fn low_blocked(a: Pos, b: Pos, world: World) -> bool {
    exists|k: int| 0 <= k <= b.x - a.x && #[trigger] low_hit(a, b, world, k)
}

/// Some cell of the steep line from `a` to `b`, both ends included, holds
/// an obstacle.
pub open spec fn high_blocked(a: Pos, b: Pos, world: World) -> bool {
    exists|k: int| 0 <= k <= b.y - a.y && #[trigger] high_hit(a, b, world, k)
}

/// Some cell of the line between `from` and `to` holds an obstacle. The line
/// is drawn from the end that comes first along the axis on which the two
/// lie further apart; a cell out of bounds holds none.
pub open spec fn line_blocked(from: Pos, to: Pos, world: World) -> bool {
    if span(from.x as int, to.x as int) > span(from.y as int, to.y as int) {
        if from.x > to.x {
            low_blocked(to, from, world)
        } else {
            low_blocked(from, to, world)
        }
    } else {
        if from.y > to.y {
            high_blocked(to, from, world)
        } else {
            high_blocked(from, to, world)
        }
    }
}

/// The line of sight is the same in both directions.
pub proof fn lemma_line_blocked_symmetric(p: Pos, q: Pos, world: World)
    ensures
        line_blocked(p, q, world) == line_blocked(q, p, world),
{
    if span(p.x as int, q.x as int) <= span(p.y as int, q.y as int) && p.y == q.y {
        // The two lie no further apart along x than along y: they are one.
        assert(p == q);
    }
}

/// A line begins at its first end and ends at its second.
pub proof fn lemma_line_joins_its_ends(a: Pos, b: Pos)
    ensures
        a.x <= b.x && span(a.y as int, b.y as int) <= b.x - a.x ==> low_cell(a, b, 0) == (
            a.x as int,
            a.y as int,
        ) && low_cell(a, b, b.x - a.x) == (b.x as int, b.y as int),
        a.y <= b.y && span(a.x as int, b.x as int) <= b.y - a.y ==> high_cell(a, b, 0) == (
            a.x as int,
            a.y as int,
        ) && high_cell(a, b, b.y - a.y) == (b.x as int, b.y as int),
{
    if a.x <= b.x && span(a.y as int, b.y as int) <= b.x - a.x {
        lemma_minor_steps_at_ends(b.x - a.x, span(a.y as int, b.y as int));
    }
    if a.y <= b.y && span(a.x as int, b.x as int) <= b.y - a.y {
        lemma_minor_steps_at_ends(b.y - a.y, span(a.x as int, b.x as int));
    }
}

/// Over no steps a line does not rise, and over the whole run it rises by
/// `minor`.
proof fn lemma_minor_steps_at_ends(major: int, minor: int)
    requires
        0 <= minor <= major,
    ensures
        minor_steps(0, major, minor) == 0,
        minor_steps(major, major, minor) == minor,
{
    if major > 0 {
        assert(2 * 0 * minor + major - 1 == 0 * (2 * major) + (major - 1)) by (nonlinear_arith);
        lemma_fundamental_div_mod_converse(2 * 0 * minor + major - 1, 2 * major, 0, major - 1);
        assert(2 * major * minor + major - 1 == minor * (2 * major) + (major - 1))
            by (nonlinear_arith);
        lemma_fundamental_div_mod_converse(
            2 * major * minor + major - 1,
            2 * major,
            minor,
            major - 1,
        );
    }
}

/// After `k` steps of the run the line has risen by `m`, with the error
/// term `e` left over.
spec fn risen(k: int, major: int, minor: int, m: int, e: int) -> bool {
    &&& 0 <= e < 2 * major
    &&& 2 * k * minor + major - 1 == m * (2 * major) + e
}

/// A line has not risen before its first step.
proof fn lemma_risen_at_start(major: int, minor: int)
    requires
        0 < major,
    ensures
        risen(0, major, minor, 0, major - 1),
{
    assert(2 * 0 * minor == 0) by (nonlinear_arith);
    assert(0 * (2 * major) == 0) by (nonlinear_arith);
}

/// One step of the run: the error term tells whether the line rises with
/// it.
proof fn lemma_risen_next(k: int, major: int, minor: int, m: int, e: int)
    requires
        0 <= minor <= major,
        0 < major,
        risen(k, major, minor, m, e),
    ensures
        m == minor_steps(k, major, minor),
        e + 2 * minor >= 2 * major ==> risen(
            k + 1,
            major,
            minor,
            m + 1,
            e + 2 * minor - 2 * major,
        ),
        e + 2 * minor < 2 * major ==> risen(k + 1, major, minor, m, e + 2 * minor),
{
    lemma_fundamental_div_mod_converse(2 * k * minor + major - 1, 2 * major, m, e);
    assert(2 * (k + 1) * minor == 2 * k * minor + 2 * minor) by (nonlinear_arith);
    assert((m + 1) * (2 * major) == m * (2 * major) + 2 * major) by (nonlinear_arith);
}

/// Whether the cell `(x, y)` is in bounds and holds an obstacle.
fn blocked_at(world: &World, x: i128, y: i128) -> (r: bool)
    ensures
        r == world.blocked(x as int, y as int),
{
    let (w, h) = world.shape();
    if x < 0 || y < 0 || x >= w as i128 || y >= h as i128 {
        false
    } else {
        world.is_obstacle_coords(x as usize, y as usize)
    }
}

/// Whether the line between `from` and `to` meets an obstacle: whether any
/// cell that Bresenham's algorithm draws for it, the two ends included, is
/// in bounds and holds one.
pub fn path_is_blocked(from: &Pos, to: &Pos, world: &World) -> (r: bool)
    ensures
        r == line_blocked(*from, *to, *world),
{
    let dx: i128 = to.x as i128 - from.x as i128;
    let dy: i128 = to.y as i128 - from.y as i128;
    let span_x = if dx < 0 {
        -dx
    } else {
        dx
    };
    let span_y = if dy < 0 {
        -dy
    } else {
        dy
    };
    if span_x > span_y {
        if from.x > to.x {
            path_is_blocked_low(to, from, world)
        } else {
            path_is_blocked_low(from, to, world)
        }
    } else {
        if from.y > to.y {
            path_is_blocked_high(to, from, world)
        } else {
            path_is_blocked_high(from, to, world)
        }
    }
}

/// The lines that run further along x than along y, from left to right.
fn path_is_blocked_low(from: &Pos, to: &Pos, world: &World) -> (r: bool)
    requires
        from.x <= to.x,
        span(from.y as int, to.y as int) <= to.x - from.x,
    ensures
        r == low_blocked(*from, *to, *world),
{
    let dx: i128 = to.x as i128 - from.x as i128;
    let dy: i128 = if from.y > to.y {
        from.y as i128 - to.y as i128
    } else {
        to.y as i128 - from.y as i128
    };
    let mut d: i128 = 2 * dy - dx;
    let y_increment: i128 = if from.y > to.y {
        -1
    } else {
        1
    };
    let mut y: i128 = from.y as i128;
    let mut x: i128 = from.x as i128;
    let ghost mut m: int = 0;
    let ghost mut e: int = dx - 1;
    proof {
        if dx > 0 {
            lemma_risen_at_start(dx as int, dy as int);
        }
    }
    while x <= to.x as i128
        invariant
            dx == to.x - from.x,
            dy == span(from.y as int, to.y as int),
            0 <= dy <= dx,
            y_increment == (if from.y > to.y {
                -1int
            } else {
                1int
            }),
            from.x <= x <= to.x + 1,
            0 <= m <= x - from.x,
            y == (if from.y > to.y {
                from.y - m
            } else {
                from.y + m
            }),
            dx > 0 ==> risen(x - from.x, dx as int, dy as int, m, e) && d == e + 2 * dy - 2 * dx + 1,
            dx == 0 ==> d == 0 && m == 0,
            forall|k: int| 0 <= k < x - from.x ==> !#[trigger] low_hit(*from, *to, *world, k),
        decreases to.x + 1 - x,
    {
        let ghost k = x - from.x;
        proof {
            if dx > 0 {
                lemma_risen_next(k, dx as int, dy as int, m, e);
            }
        }
        if blocked_at(world, x, y) {
            assert(low_hit(*from, *to, *world, k));
            return true;
        }
        if d > 0 {
            proof {
                m = m + 1;
                e = e + 2 * dy - 2 * dx;
            }
            y += y_increment;
            d += 2 * (dy - dx);
        } else {
            proof {
                e = e + 2 * dy;
            }
            d += 2 * dy;
        }
        x += 1;
    }
    false
}

/// The lines that run at least as far along y as along x, from bottom to
/// top.
fn path_is_blocked_high(from: &Pos, to: &Pos, world: &World) -> (r: bool)
    requires
        from.y <= to.y,
        span(from.x as int, to.x as int) <= to.y - from.y,
    ensures
        r == high_blocked(*from, *to, *world),
{
    let dx: i128 = if from.x > to.x {
        from.x as i128 - to.x as i128
    } else {
        to.x as i128 - from.x as i128
    };
    let dy: i128 = to.y as i128 - from.y as i128;
    let mut d: i128 = 2 * dx - dy;
    let x_increment: i128 = if from.x > to.x {
        -1
    } else {
        1
    };
    let mut x: i128 = from.x as i128;
    let mut y: i128 = from.y as i128;
    let ghost mut m: int = 0;
    let ghost mut e: int = dy - 1;
    proof {
        if dy > 0 {
            lemma_risen_at_start(dy as int, dx as int);
        }
    }
    while y <= to.y as i128
        invariant
            dy == to.y - from.y,
            dx == span(from.x as int, to.x as int),
            0 <= dx <= dy,
            x_increment == (if from.x > to.x {
                -1int
            } else {
                1int
            }),
            from.y <= y <= to.y + 1,
            0 <= m <= y - from.y,
            x == (if from.x > to.x {
                from.x - m
            } else {
                from.x + m
            }),
            dy > 0 ==> risen(y - from.y, dy as int, dx as int, m, e) && d == e + 2 * dx - 2 * dy + 1,
            dy == 0 ==> d == 0 && m == 0,
            forall|k: int| 0 <= k < y - from.y ==> !#[trigger] high_hit(*from, *to, *world, k),
        decreases to.y + 1 - y,
    {
        let ghost k = y - from.y;
        proof {
            if dy > 0 {
                lemma_risen_next(k, dy as int, dx as int, m, e);
            }
        }
        if blocked_at(world, x, y) {
            assert(high_hit(*from, *to, *world, k));
            return true;
        }
        if d > 0 {
            proof {
                m = m + 1;
                e = e + 2 * dx - 2 * dy;
            }
            x += x_increment;
            d += 2 * (dx - dy);
        } else {
            proof {
                e = e + 2 * dx;
            }
            d += 2 * dx;
        }
        y += 1;
    }
    false
}

} // verus!
