use vstd::prelude::*;

pub mod astar;
pub mod flood;
pub mod grid;
pub mod ham_cycle;
pub mod reach;
pub mod snake;

verus! {

/// Largest accepted grid dimension: keeps `width * height` within `i32::MAX`
/// so per-cell costs and counts never overflow the machine integers used here.
pub const MAX_DIM: usize = 46340;

/// Grid dimensions a planner accepts: non-degenerate and small enough that
/// `width * height` fits comfortably in `usize` and `i32`.
pub open spec fn dims_ok(width: usize, height: usize) -> bool {
    1 <= width <= MAX_DIM && 1 <= height <= MAX_DIM
}

/// Runtime check of `dims_ok`, for callers that receive a grid size from
/// outside.
pub fn dims_valid(width: usize, height: usize) -> (r: bool)
    ensures
        r == dims_ok(width, height),
{
    1 <= width && width <= MAX_DIM && 1 <= height && height <= MAX_DIM
}

} // verus!
