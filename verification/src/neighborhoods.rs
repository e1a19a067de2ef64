//! The move families: each enumerates the timetables that one kind of move
//! makes from a feasible timetable, and keeps those that stay feasible.

pub mod greedy_room;
pub mod relocation;
pub mod swap;

use crate::grid::{feasible, Grid};
use crate::project::Project;
use crate::solution::Solution;
use vstd::prelude::*;

verus! {

/// Some candidate of `out` holds the timetable `h`.
pub open spec fn emitted(out: Seq<Solution>, h: Grid) -> bool {
    exists|k: int| 0 <= k < out.len() && (#[trigger] out[k]).grid() == h
}

/// Every candidate of `out` satisfies all hard constraints.
pub open spec fn all_feasible(out: Seq<Solution>, p: &Project) -> bool {
    forall|k: int| 0 <= k < out.len() ==> feasible((#[trigger] out[k]).grid(), p)
}

/// What was emitted stays emitted when a candidate is added.
pub proof fn lemma_emitted_push(out: Seq<Solution>, y: Solution, h: Grid)
    requires
        emitted(out, h),
    ensures
        emitted(out.push(y), h),
{
    let k = choose|k: int| 0 <= k < out.len() && (#[trigger] out[k]).grid() == h;
    assert(out.push(y)[k].grid() == h);
}

/// The candidate that was added last is emitted.
pub proof fn lemma_emitted_last(out: Seq<Solution>, y: Solution)
    ensures
        emitted(out.push(y), y.grid()),
{
    assert(out.push(y)[out.len() as int].grid() == y.grid());
}

} // verus!
