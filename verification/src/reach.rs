use vstd::prelude::*;
use vstd::arithmetic::div_mod::{
    lemma_fundamental_div_mod,
    lemma_fundamental_div_mod_converse,
    lemma_mod_bound,
};
use vstd::set_lib::lemma_len_subset;
use crate::grid::{Pos, pos_in_bounds, is_adjacent, manhattan};

verus! {

/// A cell the planner may occupy: on the grid and not an obstacle.
pub open spec fn free_cell(c: Pos, obs: Seq<Pos>, width: usize, height: usize) -> bool {
    pos_in_bounds(c, width, height) && !obs.contains(c)
}

/// `c` can be reached from `start` in exactly `n` steps, where every cell
/// after `start` is free. `start` itself only has to be on the grid: a
/// search origin (the agent's head) is never an obstacle to itself.
pub open spec fn reach_n(
    start: Pos,
    obs: Seq<Pos>,
    width: usize,
    height: usize,
    c: Pos,
    n: nat,
) -> bool
    decreases n,
{
    if n == 0 {
        c == start && pos_in_bounds(start, width, height)
    } else {
        free_cell(c, obs, width, height) && exists|p: Pos|
            reach_n(start, obs, width, height, p, (n - 1) as nat) && is_adjacent(p, c)
    }
}

/// `c` lies in the free region connected to `start`.
pub open spec fn reachable(start: Pos, obs: Seq<Pos>, width: usize, height: usize, c: Pos) -> bool {
    exists|n: nat| reach_n(start, obs, width, height, c, n)
}

/// The connected region of free cells around `start`: the cells a walk
/// through free space can visit from `start`, or the empty set when
/// `start` itself is blocked or off the grid.
pub open spec fn component(start: Pos, obs: Seq<Pos>, width: usize, height: usize) -> Set<Pos> {
    if free_cell(start, obs, width, height) {
        Set::new(|c: Pos| reachable(start, obs, width, height, c))
    } else {
        Set::empty()
    }
}

/// A set of cells that contains `start` and is closed under stepping to a
/// free neighbor contains everything reachable from `start`. The closed
/// set is given as a sequence, the form in which a breadth-first visit
/// accumulates it.
pub proof fn lemma_closed_seq_contains_reach(
    start: Pos,
    obs: Seq<Pos>,
    width: usize,
    height: usize,
    s: Seq<Pos>,
    c: Pos,
    n: nat,
)
    requires
        s.contains(start),
        forall|i: int, q: Pos|
            0 <= i < s.len() && free_cell(q, obs, width, height) && #[trigger] is_adjacent(
                s[i],
                q,
            ) ==> s.contains(q),
        reach_n(start, obs, width, height, c, n),
    ensures
        s.contains(c),
    decreases n,
{
    if n > 0 {
        let p = choose|p: Pos|
            reach_n(start, obs, width, height, p, (n - 1) as nat) && is_adjacent(p, c);
        lemma_closed_seq_contains_reach(start, obs, width, height, s, p, (n - 1) as nat);
        let i = choose|i: int| 0 <= i < s.len() && s[i] == p;
        assert(free_cell(c, obs, width, height) && is_adjacent(s[i], c));
    }
}

/// The subsequence of `s` whose cells are not in `blocked`, in order.
pub open spec fn free_of(s: Seq<Pos>, blocked: Seq<Pos>) -> Seq<Pos>
    decreases s.len(),
{
    if s.len() == 0 {
        Seq::empty()
    } else {
        let rest = free_of(s.drop_last(), blocked);
        if !blocked.contains(s.last()) {
            rest.push(s.last())
        } else {
            rest
        }
    }
}

/// `free_of` keeps exactly the unblocked cells of `s`, keeps no cell it
/// was not given, and keeps a duplicate-free sequence duplicate-free.
pub proof fn lemma_free_of_props(s: Seq<Pos>, blocked: Seq<Pos>)
    ensures
        free_of(s, blocked).len() <= s.len(),
        forall|i: int|
            0 <= i < free_of(s, blocked).len() ==> s.contains(#[trigger] free_of(s, blocked)[i])
                && !blocked.contains(free_of(s, blocked)[i]),
        forall|i: int|
            0 <= i < s.len() && !blocked.contains(#[trigger] s[i]) ==> free_of(
                s,
                blocked,
            ).contains(s[i]),
        s.no_duplicates() ==> free_of(s, blocked).no_duplicates(),
    decreases s.len(),
{
    let out = free_of(s, blocked);
    if s.len() > 0 {
        let rest = free_of(s.drop_last(), blocked);
        lemma_free_of_props(s.drop_last(), blocked);
        assert forall|i: int| 0 <= i < out.len() implies s.contains(#[trigger] out[i])
            && !blocked.contains(out[i]) by {
            if i < rest.len() {
                assert(out[i] == rest[i]);
                let j = choose|j: int| 0 <= j < s.drop_last().len() && s.drop_last()[j] == rest[i];
                assert(s[j] == rest[i]);
            } else {
                assert(out[i] == s[s.len() - 1]);
            }
        }
        assert forall|i: int| 0 <= i < s.len() && !blocked.contains(#[trigger] s[i]) implies out
            .contains(s[i]) by {
            if i < s.len() - 1 {
                assert(s.drop_last()[i] == s[i]);
                assert(rest.contains(s[i]));
                let j = choose|j: int| 0 <= j < rest.len() && rest[j] == s[i];
                assert(out[j] == s[i]);
            } else {
                assert(out[out.len() - 1] == s[i]);
            }
        }
        if s.no_duplicates() {
            assert(s.drop_last().no_duplicates());
            assert forall|a: int, b: int| 0 <= a < b < out.len() implies out[a] != out[b] by {
                if b == out.len() - 1 && !blocked.contains(s.last()) {
                    assert(out[a] == rest[a]);
                    let j = choose|j: int|
                        0 <= j < s.drop_last().len() && s.drop_last()[j] == rest[a];
                    assert(s[j] == out[a] && j < s.len() - 1);
                }
            }
        }
    }
}

/// The region around a free cell holds at least that cell.
pub proof fn lemma_component_nonempty(start: Pos, obs: Seq<Pos>, width: usize, height: usize)
    requires
        width >= 1,
        height >= 1,
        free_cell(start, obs, width, height),
    ensures
        component(start, obs, width, height).finite(),
        component(start, obs, width, height).len() >= 1,
        component(start, obs, width, height).contains(start),
{
    let comp = component(start, obs, width, height);
    assert(reach_n(start, obs, width, height, start, 0));
    assert(comp.contains(start));
    lemma_grid_set_len(width, height);
    assert forall|c: Pos| comp.contains(c) implies grid_set(width, height).contains(c) by {
        let n = choose|n: nat| reach_n(start, obs, width, height, c, n);
        if n == 0 {
        } else {
            assert(free_cell(c, obs, width, height));
        }
    }
    lemma_len_subset(comp, grid_set(width, height));
    assert(Set::empty().insert(start).subset_of(comp));
    lemma_len_subset(Set::empty().insert(start), comp);
    assert(Set::<Pos>::empty().insert(start).len() == 1);
}

/// A path of `n` steps ends at most `n` Manhattan-steps from its start.
pub proof fn lemma_reach_manhattan(
    start: Pos,
    obs: Seq<Pos>,
    width: usize,
    height: usize,
    c: Pos,
    n: nat,
)
    requires
        reach_n(start, obs, width, height, c, n),
    ensures
        manhattan(start, c) <= n,
    decreases n,
{
    if n > 0 {
        let p = choose|p: Pos|
            reach_n(start, obs, width, height, p, (n - 1) as nat) && is_adjacent(p, c);
        lemma_reach_manhattan(start, obs, width, height, p, (n - 1) as nat);
    }
}

/// The L-shaped corridor from `a` to `c`: the cells of `a`'s row between
/// the two columns, and the cells of `c`'s column between the two rows.
pub open spec fn on_corridor(a: Pos, c: Pos, p: Pos) -> bool {
    (p.y == a.y && (if a.x <= c.x {
        a.x <= p.x <= c.x
    } else {
        c.x <= p.x <= a.x
    })) || (p.x == c.x && (if a.y <= c.y {
        a.y <= p.y <= c.y
    } else {
        c.y <= p.y <= a.y
    }))
}

/// When every corridor cell past `start` is free, `c` is reachable in
/// exactly the Manhattan distance: walk the row first, then the column.
pub proof fn lemma_corridor_reach(start: Pos, c: Pos, obs: Seq<Pos>, width: usize, height: usize)
    requires
        pos_in_bounds(start, width, height),
        pos_in_bounds(c, width, height),
        forall|p: Pos| on_corridor(start, c, p) && p != start ==> !obs.contains(p),
    ensures
        reach_n(start, obs, width, height, c, manhattan(start, c) as nat),
    decreases manhattan(start, c),
{
    let m = manhattan(start, c);
    if m == 0 {
        assert(c == start);
    } else {
        let c2 = if c.y > start.y {
            Pos { x: c.x, y: (c.y - 1) as usize }
        } else if c.y < start.y {
            Pos { x: c.x, y: (c.y + 1) as usize }
        } else if c.x > start.x {
            Pos { x: (c.x - 1) as usize, y: c.y }
        } else {
            Pos { x: (c.x + 1) as usize, y: c.y }
        };
        assert(pos_in_bounds(c2, width, height));
        assert(is_adjacent(c2, c));
        assert(manhattan(start, c2) == m - 1);
        assert forall|p: Pos| on_corridor(start, c2, p) && p != start implies !obs.contains(
            p,
        ) by {
            assert(on_corridor(start, c, p));
        }
        lemma_corridor_reach(start, c2, obs, width, height);
        assert(on_corridor(start, c, c) && c != start);
        assert(free_cell(c, obs, width, height));
        assert(reach_n(start, obs, width, height, c, m as nat));
    }
}

/// A row-major index below `width * height` decomposes into an on-grid
/// column and row.
pub proof fn lemma_row_major_bounds(j: int, width: usize, height: usize)
    requires
        width >= 1,
        0 <= j < width * height,
    ensures
        0 <= j % (width as int) < width,
        0 <= j / (width as int) < height,
{
    let w = width as int;
    lemma_fundamental_div_mod(j, w);
    lemma_mod_bound(j, w);
    assert(0 <= j / w && j / w < height) by (nonlinear_arith)
        requires
            w >= 1,
            0 <= j,
            j < w * height,
            j == w * (j / w) + j % w,
            0 <= j % w < w,
    ;
}

/// The row-major index of an on-grid cell is on the grid's index range.
pub proof fn lemma_cell_index_bounds(p: Pos, width: usize, height: usize)
    requires
        width >= 1,
        pos_in_bounds(p, width, height),
    ensures
        0 <= p.y * width + p.x < width * height,
{
    assert(p.y * width + p.x < width * height) by (nonlinear_arith)
        requires
            p.x < width,
            p.y < height,
    ;
}

/// Row-major indexing never sends two distinct on-grid cells to the same
/// index.
pub proof fn lemma_cell_index_injective(p: Pos, q: Pos, width: usize, height: usize)
    requires
        width >= 1,
        pos_in_bounds(p, width, height),
        pos_in_bounds(q, width, height),
        p != q,
    ensures
        p.y * width + p.x != q.y * width + q.x,
{
    let w = width as int;
    if p.y * w + p.x == q.y * w + q.x {
        let j = p.y * w + p.x;
        lemma_fundamental_div_mod_converse(j, w, p.y as int, p.x as int);
        lemma_fundamental_div_mod_converse(j, w, q.y as int, q.x as int);
        assert(p.x == q.x && p.y == q.y);
    }
}

/// All cells of the grid.
pub open spec fn grid_set(width: usize, height: usize) -> Set<Pos> {
    Set::new(|p: Pos| pos_in_bounds(p, width, height))
}

/// The row-major index of a cell.
pub open spec fn cell_index(p: Pos, width: usize) -> int {
    p.y * width + p.x
}

/// The cells whose row-major index is below `k`.
pub open spec fn grid_prefix(width: usize, k: int) -> Set<Pos> {
    Set::new(|p: Pos| p.x < width && cell_index(p, width) < k)
}

/// Row-major indexing is a bijection between the first `k` indexes and
/// `grid_prefix(width, k)`, so that prefix has exactly `k` cells.
pub proof fn lemma_grid_prefix_len(width: usize, height: usize, k: int)
    requires
        width >= 1,
        0 <= k <= width * height,
    ensures
        grid_prefix(width, k).finite(),
        grid_prefix(width, k).len() == k,
    decreases k,
{
    if k == 0 {
        assert(grid_prefix(width, 0) =~= Set::<Pos>::empty());
    } else {
        lemma_grid_prefix_len(width, height, k - 1);
        let j = k - 1;
        let w = width as int;
        lemma_fundamental_div_mod(j, w);
        lemma_mod_bound(j, w);
        assert(0 <= j / w && j / w < height) by (nonlinear_arith)
            requires
                w >= 1,
                0 <= j,
                j < w * height,
                j == w * (j / w) + j % w,
                0 <= j % w < w,
        ;
        let cell = Pos { x: (j % w) as usize, y: (j / w) as usize };
        assert(cell.x == j % w && cell.y == j / w);
        assert(cell_index(cell, width) == (j / w) * w + j % w);
        assert((j / w) * w + j % w == j) by (nonlinear_arith)
            requires
                j == w * (j / w) + j % w,
        ;
        assert forall|p: Pos| grid_prefix(width, k).contains(p) implies grid_prefix(
            width,
            k - 1,
        ).insert(cell).contains(p) by {
            if cell_index(p, width) == j {
                lemma_fundamental_div_mod_converse(j, width as int, p.y as int, p.x as int);
                assert(p == cell);
            }
        }
        assert(grid_prefix(width, k) =~= grid_prefix(width, k - 1).insert(cell));
        assert(!grid_prefix(width, k - 1).contains(cell));
    }
}

/// The grid has exactly `width * height` cells.
pub proof fn lemma_grid_set_len(width: usize, height: usize)
    requires
        width >= 1,
        height >= 1,
    ensures
        grid_set(width, height).finite(),
        grid_set(width, height).len() == width * height,
{
    lemma_grid_prefix_len(width, height, width * height);
    assert forall|p: Pos| grid_set(width, height).contains(p) implies grid_prefix(
        width,
        width * height,
    ).contains(p) by {
        assert(p.y * width + p.x < width * height) by (nonlinear_arith)
            requires
                p.x < width,
                p.y < height,
        ;
    }
    assert forall|p: Pos| grid_prefix(width, width * height).contains(p) implies grid_set(
        width,
        height,
    ).contains(p) by {
        assert(p.y < height) by (nonlinear_arith)
            requires
                p.x < width,
                p.y * width + p.x < width * height,
                width >= 1,
                0 <= p.y,
        ;
    }
    assert(grid_set(width, height) =~= grid_prefix(width, width * height));
}

/// A duplicate-free sequence of on-grid cells has at most `width * height`
/// entries.
pub proof fn lemma_bounded_seq_len(s: Seq<Pos>, width: usize, height: usize)
    requires
        width >= 1,
        height >= 1,
        s.no_duplicates(),
        forall|i: int| 0 <= i < s.len() ==> pos_in_bounds(#[trigger] s[i], width, height),
    ensures
        s.len() <= width * height,
{
    s.unique_seq_to_set();
    lemma_grid_set_len(width, height);
    assert forall|p: Pos| s.to_set().contains(p) implies grid_set(width, height).contains(p) by {
        let i = choose|i: int| 0 <= i < s.len() && s[i] == p;
        assert(pos_in_bounds(s[i], width, height));
    }
    lemma_len_subset(s.to_set(), grid_set(width, height));
}

} // verus!
