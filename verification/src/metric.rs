//! What the planner and the follower ask of the continuous plane.

use crate::pos::Pos;
use vstd::prelude::*;

verus! {

/// The cost of reaching a cell, as a key: a cost is less than another
/// exactly when its key is. `NO_COST` stands for no way at all, and
/// `UNREACHED` for a way without end.
pub type Cost = u64;

/// The cost of staying where one is.
pub const NO_COST: Cost = 0;

/// The cost of a cell that no way leads to; no finite cost has this key.
pub const UNREACHED: Cost = 0xffff_ffff_ffff_ffff;

/// Lengths in the continuous plane. The planner and the follower decide on
/// what an implementation answers and prescribe nothing about it: with
/// Euclidean lengths the routes are the shortest any-angle routes.
pub trait Metric {
    /// A point of the continuous plane.
    type Point: Copy;

    /// The cost of being at `to` after a straight move from `from`, which
    /// was reached at `cost`.
    fn add_distance(&self, cost: Cost, from: &Pos, to: &Pos) -> Cost;

    /// Whether `a` and `b` lie less than one step of the agent apart.
    fn within_one_step(&self, a: &Self::Point, b: &Self::Point) -> bool;
}

/// `sum` is a cost that `metric` may give for being at `to` after a straight
/// move from `from`, which was reached at `cost`: what an implementation
/// ensures of `add_distance` holds of it.
pub open spec fn prices<M: Metric>(metric: M, cost: Cost, from: Pos, to: Pos, sum: Cost) -> bool {
    call_ensures(M::add_distance, (&metric, cost, &from, &to), sum)
}

/// The costs of `metric` are steady: whatever it gives for a move from a
/// cost below `UNREACHED` is no less than that cost and below `UNREACHED`
/// again. With such costs a search finds a route wherever there is one.
pub open spec fn is_steady<M: Metric>(metric: M) -> bool {
    forall|cost: Cost, from: Pos, to: Pos, sum: Cost|
        cost < UNREACHED && #[trigger] prices(metric, cost, from, to, sum) ==> cost <= sum
            < UNREACHED
}

/// `near` is an answer that `metric` may give to whether `a` and `b` lie
/// less than one step apart: what an implementation ensures of
/// `within_one_step` holds of it.
pub open spec fn says_near<M: Metric>(metric: M, a: M::Point, b: M::Point, near: bool) -> bool {
    call_ensures(M::within_one_step, (&metric, &a, &b), near)
}

} // verus!
