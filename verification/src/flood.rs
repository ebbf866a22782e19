use vstd::prelude::*;
use crate::dims_ok;
use crate::grid::{Pos, contains_pos, in_bounds, is_adjacent, pos_in_bounds};
use crate::reach::{
    component,
    free_cell,
    lemma_bounded_seq_len,
    lemma_closed_seq_contains_reach,
    reach_n,
    reachable,
};

verus! {

/// Size of the connected free region that contains `origin`: the number
/// of cells an agent standing on `origin` could ever visit without
/// crossing an obstacle or leaving the grid. Zero when `origin` itself is
/// an obstacle or off the grid.
///
/// The count is computed by a breadth-first visit that enqueues every
/// free cell exactly once, so it runs in time proportional to the region
/// and terminates on any grid.
pub fn reachable_count(origin: Pos, obstacles: &Vec<Pos>, width: usize, height: usize) -> (r: usize)
    requires
        dims_ok(width, height),
    ensures
        component(origin, obstacles@, width, height).finite(),
        r == component(origin, obstacles@, width, height).len(),
        !free_cell(origin, obstacles@, width, height) ==> r == 0,
{
    broadcast use vstd::seq_lib::seq_to_set_is_finite;

    if !in_bounds(origin.x, origin.y, width, height) || contains_pos(obstacles, origin) {
        proof {
            assert(component(origin, obstacles@, width, height) =~= Set::empty());
        }
        return 0;
    }
    let mut open: Vec<Pos> = Vec::new();
    open.push(origin);
    proof {
        assert(open@[0] == origin);
        assert(open@.contains(origin));
        assert(reach_n(origin, obstacles@, width, height, origin, 0));
        assert(reachable(origin, obstacles@, width, height, origin));
        assert(1 <= width * height) by (nonlinear_arith)
            requires
                1 <= width,
                1 <= height,
        ;
    }
    let mut idx: usize = 0;
    while idx < open.len()
        invariant
            dims_ok(width, height),
            free_cell(origin, obstacles@, width, height),
            idx <= open@.len(),
            open@.len() <= width * height,
            open@.no_duplicates(),
            open@.contains(origin),
            forall|i: int|
                0 <= i < open@.len() ==> free_cell(#[trigger] open@[i], obstacles@, width, height)
                    && reachable(origin, obstacles@, width, height, open@[i]),
            forall|i: int, q: Pos|
                0 <= i < idx && free_cell(q, obstacles@, width, height) && #[trigger] is_adjacent(
                    open@[i],
                    q,
                ) ==> open@.contains(q),
        decreases width * height - idx,
    {
        let cur = open[idx];
        let neighbors = cur.get_neighbors(width, height);
        let ghost prev_open = open@;
        let mut j: usize = 0;
        while j < neighbors.len()
            invariant
                dims_ok(width, height),
                free_cell(origin, obstacles@, width, height),
                idx < open@.len(),
                open@.len() <= width * height,
                open@.no_duplicates(),
                open@.contains(origin),
                open@[idx as int] == cur,
                forall|k: int| 0 <= k < prev_open.len() ==> open@[k] == prev_open[k],
                prev_open.len() <= open@.len(),
                j <= neighbors@.len(),
                forall|i: int|
                    0 <= i < open@.len() ==> free_cell(
                        #[trigger] open@[i],
                        obstacles@,
                        width,
                        height,
                    ) && reachable(origin, obstacles@, width, height, open@[i]),
                forall|i: int, q: Pos|
                    0 <= i < idx && free_cell(q, obstacles@, width, height) && #[trigger] is_adjacent(
                        prev_open[i],
                        q,
                    ) ==> open@.contains(q),
                forall|k: int|
                    0 <= k < j && free_cell(#[trigger] neighbors@[k], obstacles@, width, height)
                        ==> open@.contains(neighbors@[k]),
                forall|i: int| 0 <= i < neighbors@.len() ==> is_adjacent(cur, #[trigger] neighbors@[i])
                    && pos_in_bounds(neighbors@[i], width, height),
            decreases neighbors@.len() - j,
        {
            let q = neighbors[j];
            if !contains_pos(obstacles, q) && !contains_pos(&open, q) {
                proof {
                    assert(reachable(origin, obstacles@, width, height, cur));
                    let n = choose|n: nat|
                        reach_n(origin, obstacles@, width, height, cur, n);
                    assert(is_adjacent(cur, q) && free_cell(q, obstacles@, width, height));
                    assert(reach_n(origin, obstacles@, width, height, q, n + 1));
                    assert(reachable(origin, obstacles@, width, height, q));
                }
                let ghost before_push = open@;
                open.push(q);
                proof {
                    assert(open@[open@.len() - 1] == q);
                    assert(forall|k: int| 0 <= k < before_push.len() ==> open@[k] == before_push[k]);
                    assert forall|x: Pos| before_push.contains(x) implies open@.contains(x) by {
                        let i = choose|i: int| 0 <= i < before_push.len() && before_push[i] == x;
                        assert(open@[i] == x);
                    }
                    assert forall|a: int, b: int|
                        0 <= a < b < open@.len() implies open@[a] != open@[b] by {
                        if b < open@.len() - 1 {
                            assert(before_push[a] != before_push[b]);
                        } else {
                            assert(!before_push.contains(q));
                            assert(before_push[a] != q);
                        }
                    }
                    assert(open@.no_duplicates());
                    lemma_bounded_seq_len(open@, width, height);
                }
            }
            j += 1;
        }
        idx += 1;
        proof {
            assert forall|i: int, q: Pos|
                0 <= i < idx && free_cell(q, obstacles@, width, height) && #[trigger] is_adjacent(
                    open@[i],
                    q,
                ) implies open@.contains(q) by {
                if i < idx - 1 {
                    assert(open@[i] == prev_open[i]);
                } else {
                    assert(open@[i] == cur);
                    crate::grid::lemma_neighbor_seq_complete(cur, width, height);
                    assert(neighbors@.contains(q));
                    let k = choose|k: int| 0 <= k < neighbors@.len() && neighbors@[k] == q;
                    assert(free_cell(neighbors@[k], obstacles@, width, height));
                }
            }
        }
    }
    proof {
        let obs = obstacles@;
        let comp = component(origin, obs, width, height);
        assert forall|c: Pos| comp.contains(c) implies open@.to_set().contains(c) by {
            let n = choose|n: nat| reach_n(origin, obs, width, height, c, n);
            lemma_closed_seq_contains_reach(origin, obs, width, height, open@, c, n);
        }
        assert forall|c: Pos| open@.to_set().contains(c) implies comp.contains(c) by {
            let i = choose|i: int| 0 <= i < open@.len() && open@[i] == c;
            assert(reachable(origin, obs, width, height, open@[i]));
        }
        assert(comp =~= open@.to_set());
        open@.unique_seq_to_set();
    }
    open.len()
}

} // verus!
