use vstd::prelude::*;
use crate::dims_ok;
use crate::grid::{
    Direction,
    Pos,
    can_step,
    contains_pos,
    dir_to_spec,
    in_bounds,
    is_adjacent,
    is_step,
    lemma_adjacent_characterization,
    lemma_push_contains,
    lemma_step_cell,
    lemma_step_in_bounds,
    neighbor_seq,
    pos_in_bounds,
    step_cell,
};
use crate::reach::{
    free_cell,
    lemma_bounded_seq_len,
    lemma_cell_index_bounds,
    lemma_cell_index_injective,
    reach_n,
};
use crate::snake::{Food, Snake};

verus! {

/// The obstacle set a search routes around, with the goal itself walled
/// off: the search stops at the goal's edge, so no route passes through
/// it.
pub open spec fn avoid_seq(obs: Seq<Pos>, goal: Pos) -> Seq<Pos> {
    obs.push(goal)
}

/// Some walk of exactly `n` steps leaves `start`, stays on free cells,
/// and ends on the grid-adjacent edge of `goal`.
pub open spec fn goal_reach_n(
    start: Pos,
    goal: Pos,
    obs: Seq<Pos>,
    width: usize,
    height: usize,
    n: nat,
) -> bool {
    n >= 1 && pos_in_bounds(goal, width, height) && exists|c: Pos|
        reach_n(start, avoid_seq(obs, goal), width, height, c, (n - 1) as nat) && is_adjacent(
            c,
            goal,
        )
}

/// A collision-free route from `start` to `goal` exists.
pub open spec fn can_reach_goal(
    start: Pos,
    goal: Pos,
    obs: Seq<Pos>,
    width: usize,
    height: usize,
) -> bool {
    exists|n: nat| goal_reach_n(start, goal, obs, width, height, n)
}

/// The cell where a walk stands after taking the first `k` directions of
/// `dirs`, starting from `start`.
pub open spec fn walk_pos(start: Pos, dirs: Seq<Direction>, k: int) -> Pos
    decreases k,
{
    if k <= 0 {
        start
    } else {
        step_cell(walk_pos(start, dirs, k - 1), dirs[k - 1])
    }
}

/// `dirs` is a collision-free route from `start` to `goal`: every step
/// stays on the grid, every cell strictly between start and goal is
/// free of obstacles and is not the goal, and the walk ends on `goal`.
pub open spec fn path_ok(
    start: Pos,
    goal: Pos,
    obs: Seq<Pos>,
    width: usize,
    height: usize,
    dirs: Seq<Direction>,
) -> bool {
    &&& dirs.len() >= 1
    &&& forall|k: int|
        0 <= k < dirs.len() ==> can_step(walk_pos(start, dirs, k), #[trigger] dirs[k], width, height)
    &&& forall|k: int|
        1 <= k < dirs.len() ==> !obs.contains(#[trigger] walk_pos(start, dirs, k)) && walk_pos(
            start,
            dirs,
            k,
        ) != goal
    &&& walk_pos(start, dirs, dirs.len() as int) == goal
}

/// Any collision-free route is a witness that the goal can be reached:
/// whenever some concrete direction sequence leads from `start` to
/// `goal`, a search must succeed.
pub proof fn lemma_path_ok_reachable(
    start: Pos,
    goal: Pos,
    obs: Seq<Pos>,
    width: usize,
    height: usize,
    dirs: Seq<Direction>,
)
    requires
        path_ok(start, goal, obs, width, height, dirs),
        start != goal,
    ensures
        goal_reach_n(start, goal, obs, width, height, dirs.len() as nat),
        can_reach_goal(start, goal, obs, width, height),
{
    let av = avoid_seq(obs, goal);
    let ln = dirs.len() as int;
    lemma_push_contains(obs, goal);
    assert forall|k: int| 0 <= k < ln implies reach_n(
        start,
        av,
        width,
        height,
        #[trigger] walk_pos(start, dirs, k),
        k as nat,
    ) by {
        lemma_walk_reach(start, goal, obs, width, height, dirs, k);
    }
    let c = walk_pos(start, dirs, ln - 1);
    assert(can_step(c, dirs[ln - 1], width, height));
    lemma_step_cell(c, dirs[ln - 1], width, height);
    assert(walk_pos(start, dirs, ln) == step_cell(c, dirs[ln - 1]));
    assert(is_adjacent(c, goal)) by {
        lemma_adjacent_characterization(c, goal);
    }
    assert(pos_in_bounds(goal, width, height)) by {
        lemma_step_cell(c, dirs[ln - 1], width, height);
    }
    assert(goal_reach_n(start, goal, obs, width, height, ln as nat));
}

/// Each prefix of a collision-free route reaches its cell in as many
/// steps, through free cells only.
proof fn lemma_walk_reach(
    start: Pos,
    goal: Pos,
    obs: Seq<Pos>,
    width: usize,
    height: usize,
    dirs: Seq<Direction>,
    k: int,
)
    requires
        path_ok(start, goal, obs, width, height, dirs),
        start != goal,
        0 <= k < dirs.len(),
    ensures
        reach_n(start, avoid_seq(obs, goal), width, height, walk_pos(start, dirs, k), k as nat),
    decreases k,
{
    let av = avoid_seq(obs, goal);
    lemma_push_contains(obs, goal);
    if k == 0 {
        assert(can_step(start, dirs[0], width, height));
    } else {
        lemma_walk_reach(start, goal, obs, width, height, dirs, k - 1);
        let prev = walk_pos(start, dirs, k - 1);
        let cur = walk_pos(start, dirs, k);
        assert(can_step(prev, dirs[k - 1], width, height));
        lemma_step_cell(prev, dirs[k - 1], width, height);
        assert(cur == step_cell(prev, dirs[k - 1]));
        assert(is_adjacent(prev, cur)) by {
            lemma_adjacent_characterization(prev, cur);
        }
        assert(!obs.contains(cur) && cur != goal);
        assert(free_cell(cur, av, width, height));
        assert(reach_n(start, av, width, height, cur, k as nat));
    }
}

/// No route beats the Manhattan distance: a walk of `n` steps that
/// reaches the goal satisfies `n >= manhattan(start, goal)`.
pub proof fn lemma_goal_reach_manhattan_lower(
    start: Pos,
    goal: Pos,
    obs: Seq<Pos>,
    width: usize,
    height: usize,
    n: nat,
)
    requires
        goal_reach_n(start, goal, obs, width, height, n),
    ensures
        n >= crate::grid::manhattan(start, goal),
{
    let av = avoid_seq(obs, goal);
    let c = choose|c: Pos|
        reach_n(start, av, width, height, c, (n - 1) as nat) && is_adjacent(c, goal);
    crate::reach::lemma_reach_manhattan(start, av, width, height, c, (n - 1) as nat);
    lemma_adjacent_characterization(c, goal);
}

/// On an obstacle-free grid the goal is always reachable, in exactly the
/// Manhattan distance: walk the start's row, then the goal's column,
/// stopping one cell short of the goal.
pub proof fn lemma_empty_grid_goal_reach(
    start: Pos,
    goal: Pos,
    obs: Seq<Pos>,
    width: usize,
    height: usize,
)
    requires
        pos_in_bounds(start, width, height),
        pos_in_bounds(goal, width, height),
        start != goal,
        forall|p: Pos| !obs.contains(p),
    ensures
        goal_reach_n(
            start,
            goal,
            obs,
            width,
            height,
            crate::grid::manhattan(start, goal) as nat,
        ),
{
    let av = avoid_seq(obs, goal);
    let m = crate::grid::manhattan(start, goal);
    let c = if goal.x > start.x {
        Pos { x: (goal.x - 1) as usize, y: goal.y }
    } else if goal.x < start.x {
        Pos { x: (goal.x + 1) as usize, y: goal.y }
    } else if goal.y > start.y {
        Pos { x: goal.x, y: (goal.y - 1) as usize }
    } else {
        Pos { x: goal.x, y: (goal.y + 1) as usize }
    };
    assert(pos_in_bounds(c, width, height));
    assert(is_adjacent(c, goal));
    assert(crate::grid::manhattan(start, c) == m - 1);
    assert(!crate::reach::on_corridor(start, c, goal));
    lemma_push_contains(obs, goal);
    assert forall|p: Pos|
        crate::reach::on_corridor(start, c, p) && p != start implies !av.contains(p) by {
        assert(p != goal);
        assert(!obs.contains(p));
    }
    crate::reach::lemma_corridor_reach(start, c, av, width, height);
    assert(reach_n(start, av, width, height, c, (m - 1) as nat));
    assert(goal_reach_n(start, goal, obs, width, height, m as nat));
}

/// Optimality on an obstacle-free grid: a finished search holds a route,
/// and its length is exactly the Manhattan distance from start to goal.
pub proof fn lemma_optimal_on_open_grid(a: AStar, start: Pos, goal: Pos, obs: Seq<Pos>)
    requires
        search_post(a, start, goal, obs),
        pos_in_bounds(start, a.width, a.height),
        pos_in_bounds(goal, a.width, a.height),
        start != goal,
        forall|p: Pos| !obs.contains(p),
    ensures
        a.found(),
        a.path@.len() == crate::grid::manhattan(start, goal),
{
    let m = crate::grid::manhattan(start, goal);
    lemma_empty_grid_goal_reach(start, goal, obs, a.width, a.height);
    assert(goal_reach_n(start, goal, obs, a.width, a.height, m as nat));
    assert(can_reach_goal(start, goal, obs, a.width, a.height));
    assert(a.found());
    lemma_goal_reach_manhattan_lower(
        start,
        goal,
        obs,
        a.width,
        a.height,
        a.path@.len() as nat,
    );
    if a.path@.len() > m {
        assert(!goal_reach_n(start, goal, obs, a.width, a.height, m as nat));
    }
}

/// Obstacle respect: every cell a returned route visits is on the grid
/// and not an obstacle. (When the goal itself sits on an obstacle the
/// final cell is exempt: the route still ends on the goal.)
pub proof fn lemma_route_respects_obstacles(
    start: Pos,
    goal: Pos,
    obs: Seq<Pos>,
    width: usize,
    height: usize,
    dirs: Seq<Direction>,
    k: int,
)
    requires
        path_ok(start, goal, obs, width, height, dirs),
        !obs.contains(goal),
        1 <= k <= dirs.len(),
    ensures
        pos_in_bounds(walk_pos(start, dirs, k), width, height),
        !obs.contains(walk_pos(start, dirs, k)),
{
    let prev = walk_pos(start, dirs, k - 1);
    assert(can_step(prev, dirs[k - 1], width, height));
    lemma_step_cell(prev, dirs[k - 1], width, height);
    assert(walk_pos(start, dirs, k) == step_cell(prev, dirs[k - 1]));
    if k == dirs.len() {
        assert(walk_pos(start, dirs, k) == goal);
    }
}

/// Per-cell scratch record of one search: the discovering neighbor, the
/// cost from the start, the Manhattan estimate to the goal, and their
/// sum. An undiscovered cell holds `usize::MAX` in all three costs and no
/// parent.
#[derive(Clone, Copy)]
pub struct Node {
    pub parent: Option<Pos>,
    pub g: usize,
    pub h: usize,
    pub f: usize,
}

/// Ticks between re-planning attempts while no route is in hand.
pub const SEARCH_EVERY: usize = 10;

/// What a finished search guarantees: a route is in hand exactly when
/// one exists, it is collision-free and of minimal length, and the
/// cursor is rewound.
pub open spec fn search_post(a: AStar, head: Pos, goal: Pos, obs: Seq<Pos>) -> bool {
    &&& a.path_index == 0
    &&& (a.found() <==> (head != goal && can_reach_goal(head, goal, obs, a.width, a.height)))
    &&& (a.found() ==> a.end == Some(goal) && path_ok(head, goal, obs, a.width, a.height, a.path@)
        && goal_reach_n(head, goal, obs, a.width, a.height, a.path@.len() as nat) && (forall|
        n: nat,
    |
        n < a.path@.len() ==> !goal_reach_n(head, goal, obs, a.width, a.height, n)))
    &&& (!a.found() ==> a.path@.len() == 0)
}

/// The agent with its pending direction set to `d`, reversals ignored.
pub open spec fn with_next(pre: Snake, d: Direction) -> Snake {
    Snake {
        next_direction: if crate::grid::opposite_spec(pre.dir()) != d {
            d
        } else {
            pre.next_dir()
        },
        ..pre
    }
}

/// A survival move of the random fallback: onto some free neighbor, or
/// `Right` when there is none.
pub open spec fn random_dir_ok(pre: Snake, d: Direction) -> bool {
    let c = pre.cand_seq();
    &&& (c.len() == 0 ==> d == Direction::Right)
    &&& (c.len() > 0 ==> exists|i: int|
        0 <= i < c.len() && dir_to_spec(pre.head_spec(), #[trigger] c[i]) == Some(d))
}

/// A survival move of the most-open fallback: onto the free neighbor
/// whose region is largest, ties to the first in enumeration order.
pub open spec fn space_dir_ok(pre: Snake, d: Direction) -> bool {
    let c = pre.cand_seq();
    &&& (c.len() == 0 ==> d == Direction::Right)
    &&& (c.len() == 1 ==> dir_to_spec(pre.head_spec(), c[0]) == Some(d))
    &&& (c.len() >= 2 ==> ({
        let b = crate::snake::best_idx_upto(c, pre.tail(), pre.width, pre.height, c.len() as int);
        0 <= b < c.len() && dir_to_spec(pre.head_spec(), c[b]) == Some(d)
    }))
}

/// How the policy turns the planner's state into the direction command
/// of one tick: follow the route when one is in hand; else, when about
/// to collide, pick a survival move; else leave the agent's heading
/// alone.
pub open spec fn command_rel(a: AStar, pre: Snake, s1: Snake) -> bool {
    if a.found() {
        s1 == with_next(pre, a.path@[a.path_index as int])
    } else if pre.collides_now() {
        exists|d: Direction|
            (if a.random_dir {
                random_dir_ok(pre, d)
            } else {
                space_dir_ok(pre, d)
            }) && s1 == #[trigger] with_next(pre, d)
    } else {
        s1 == pre
    }
}

/// With the deterministic fallback, the commanded move is a function of
/// the planner's and the agent's state: re-deriving the next move from
/// an equal state commands the same move.
pub proof fn lemma_command_deterministic(a: AStar, pre: Snake, s1: Snake, s2: Snake)
    requires
        !a.random_dir,
        command_rel(a, pre, s1),
        command_rel(a, pre, s2),
    ensures
        s1 == s2,
{
    if !a.found() && pre.collides_now() {
        let d1 = choose|d: Direction|
            (if a.random_dir {
                random_dir_ok(pre, d)
            } else {
                space_dir_ok(pre, d)
            }) && s1 == #[trigger] with_next(pre, d);
        let d2 = choose|d: Direction|
            (if a.random_dir {
                random_dir_ok(pre, d)
            } else {
                space_dir_ok(pre, d)
            }) && s2 == #[trigger] with_next(pre, d);
        assert(space_dir_ok(pre, d1) && space_dir_ok(pre, d2));
        assert(d1 == d2);
    }
}

/// The route planner. `path` holds the directions of the last route
/// found, consumed through `path_index`; `end` remembers the goal of a
/// successful search.
pub struct AStar {
    pub path: Vec<Direction>,
    pub path_index: usize,
    pub end: Option<Pos>,
    pub random_dir: bool,
    pub width: usize,
    pub height: usize,
}

/// The scratch record of cell `p` in the flat row-major arena.
pub open spec fn node_of(nodes: Seq<Node>, width: usize, p: Pos) -> Node {
    nodes[p.y * width + p.x]
}

/// Cell `p` has been discovered: its cost from the start is set.
pub open spec fn disc(nodes: Seq<Node>, width: usize, p: Pos) -> bool {
    node_of(nodes, width, p).g != usize::MAX
}

/// `p` is among the first `qi` entries of the frontier queue: its
/// neighbors have all been expanded (the classic closed set).
pub open spec fn processed(open: Seq<Pos>, qi: int, p: Pos) -> bool {
    exists|i: int| 0 <= i < qi && open[i] == p
}

/// Everything a breadth-first expansion keeps true of its arena and
/// queue, with `qi` entries of the queue already expanded: queue entries
/// are the discovered cells in cost order, parents link every discovered
/// cell back toward the start with unit cost steps, and each discovered
/// cell is truly reachable in its recorded cost.
#[verifier::opaque]
pub open spec fn base_inv(
    start: Pos,
    goal: Pos,
    obs: Seq<Pos>,
    width: usize,
    height: usize,
    nodes: Seq<Node>,
    open: Seq<Pos>,
    qi: int,
) -> bool {
    let av = avoid_seq(obs, goal);
    &&& dims_ok(width, height)
    &&& pos_in_bounds(start, width, height)
    &&& start != goal
    &&& nodes.len() == width * height
    &&& 1 <= open.len() <= width * height
    &&& open[0] == start
    &&& open.no_duplicates()
    &&& 0 <= qi <= open.len()
    &&& forall|i: int| 0 <= i < open.len() ==> pos_in_bounds(#[trigger] open[i], width, height)
    &&& forall|i: int| 0 <= i < open.len() ==> disc(nodes, width, #[trigger] open[i])
    &&& forall|i: int|
        0 <= i < open.len() ==> node_of(nodes, width, #[trigger] open[i]).g <= i
    &&& forall|p: Pos|
        pos_in_bounds(p, width, height) && #[trigger] disc(nodes, width, p) ==> open.contains(p)
    &&& disc(nodes, width, start)
    &&& node_of(nodes, width, start).g == 0
    &&& node_of(nodes, width, start).parent is None
    &&& forall|p: Pos|
        pos_in_bounds(p, width, height) && #[trigger] disc(nodes, width, p) && p != start ==> (
        free_cell(p, av, width, height) && (node_of(nodes, width, p).parent matches Some(q)
            && pos_in_bounds(q, width, height) && disc(nodes, width, q) && is_adjacent(q, p)
            && node_of(nodes, width, p).g == node_of(nodes, width, q).g + 1))
    &&& forall|p: Pos|
        pos_in_bounds(p, width, height) && #[trigger] disc(nodes, width, p) ==> reach_n(
            start,
            av,
            width,
            height,
            p,
            node_of(nodes, width, p).g as nat,
        )
    &&& forall|i: int, j: int|
        0 <= i <= j < open.len() ==> node_of(nodes, width, #[trigger] open[i]).g <= node_of(
            nodes,
            width,
            #[trigger] open[j],
        ).g
    &&& qi < open.len() ==> forall|j: int|
        qi <= j < open.len() ==> node_of(nodes, width, #[trigger] open[j]).g <= node_of(
            nodes,
            width,
            open[qi],
        ).g + 1
    &&& forall|i: int, q: Pos|
        0 <= i < qi && free_cell(q, av, width, height) && #[trigger] is_adjacent(open[i], q)
            ==> disc(nodes, width, q) && node_of(nodes, width, q).g <= node_of(
            nodes,
            width,
            open[i],
        ).g + 1
}

/// Costs are exact: any walk that reaches a cell in fewer steps than the
/// cost of the next queue entry has already been expanded, at a recorded
/// cost no larger than that walk.
#[verifier::opaque]
pub open spec fn min_inv(
    start: Pos,
    goal: Pos,
    obs: Seq<Pos>,
    width: usize,
    height: usize,
    nodes: Seq<Node>,
    open: Seq<Pos>,
    qi: int,
) -> bool {
    forall|p: Pos, n: nat|
        #[trigger] reach_n(start, avoid_seq(obs, goal), width, height, p, n) && (qi == open.len()
            || n < node_of(nodes, width, open[qi]).g) ==> processed(open, qi, p) && node_of(
            nodes,
            width,
            p,
        ).g <= n
}

/// No expanded cell touches the goal (otherwise the search would have
/// ended).
#[verifier::opaque]
pub open spec fn unfound_inv(
    goal: Pos,
    width: usize,
    height: usize,
    open: Seq<Pos>,
    qi: int,
) -> bool {
    forall|i: int|
        0 <= i < qi ==> !(pos_in_bounds(goal, width, height) && is_adjacent(
            #[trigger] open[i],
            goal,
        ))
}

/// What holds of the cell `c` whose expansion discovered the goal: it is
/// reachable at its recorded cost, it touches the goal, and no walk
/// shorter than `g(c) + 1` reaches the goal at all.
pub open spec fn found_facts(
    start: Pos,
    goal: Pos,
    obs: Seq<Pos>,
    width: usize,
    height: usize,
    nodes: Seq<Node>,
    c: Pos,
) -> bool {
    &&& pos_in_bounds(c, width, height)
    &&& disc(nodes, width, c)
    &&& pos_in_bounds(goal, width, height)
    &&& is_adjacent(c, goal)
    &&& forall|n: nat|
        n < node_of(nodes, width, c).g + 1 ==> !goal_reach_n(start, goal, obs, width, height, n)
}

/// When the queue entry under expansion touches the goal, no strictly
/// shorter walk could have reached the goal: any such walk's last free
/// cell would already have been expanded, and expanded cells do not
/// touch the goal.
#[verifier::rlimit(100)]
proof fn lemma_at_found(
    start: Pos,
    goal: Pos,
    obs: Seq<Pos>,
    width: usize,
    height: usize,
    nodes: Seq<Node>,
    open: Seq<Pos>,
    qi: int,
)
    requires
        base_inv(start, goal, obs, width, height, nodes, open, qi),
        min_inv(start, goal, obs, width, height, nodes, open, qi),
        unfound_inv(goal, width, height, open, qi),
        0 <= qi < open.len(),
        pos_in_bounds(goal, width, height),
        is_adjacent(open[qi], goal),
    ensures
        found_facts(start, goal, obs, width, height, nodes, open[qi]),
{
    reveal(base_inv);
    reveal(min_inv);
    reveal(unfound_inv);
    let av = avoid_seq(obs, goal);
    let c = open[qi];
    let cg = node_of(nodes, width, c).g;
    assert forall|n: nat| n < cg + 1 implies !goal_reach_n(start, goal, obs, width, height, n) by {
        if goal_reach_n(start, goal, obs, width, height, n) {
            let p = choose|p: Pos|
                reach_n(start, av, width, height, p, (n - 1) as nat) && is_adjacent(p, goal);
            assert(reach_n(start, av, width, height, p, (n - 1) as nat));
            assert(processed(open, qi, p));
            let i = choose|i: int| 0 <= i < qi && open[i] == p;
            assert(!(pos_in_bounds(goal, width, height) && is_adjacent(open[i], goal)));
            assert(false);
        }
    }
}

/// Once the queue is exhausted, every reachable cell has been expanded,
/// at a cost no larger than any walk that reaches it.
#[verifier::rlimit(100)]
proof fn lemma_exhausted(
    start: Pos,
    goal: Pos,
    obs: Seq<Pos>,
    width: usize,
    height: usize,
    nodes: Seq<Node>,
    open: Seq<Pos>,
    p: Pos,
    n: nat,
)
    requires
        base_inv(start, goal, obs, width, height, nodes, open, open.len() as int),
        reach_n(start, avoid_seq(obs, goal), width, height, p, n),
    ensures
        processed(open, open.len() as int, p),
        node_of(nodes, width, p).g <= n,
    decreases n,
{
    reveal(base_inv);
    let av = avoid_seq(obs, goal);
    if n == 0 {
        assert(open[0] == start);
        assert(processed(open, open.len() as int, start));
    } else {
        let pr = choose|pr: Pos|
            reach_n(start, av, width, height, pr, (n - 1) as nat) && is_adjacent(pr, p);
        lemma_exhausted(start, goal, obs, width, height, nodes, open, pr, (n - 1) as nat);
        let i = choose|i: int| 0 <= i < open.len() && open[i] == pr;
        assert(free_cell(p, av, width, height) && is_adjacent(open[i], p));
        assert(disc(nodes, width, p));
        assert(open.contains(p));
        let k = choose|k: int| 0 <= k < open.len() && open[k] == p;
        assert(processed(open, open.len() as int, p));
        assert(node_of(nodes, width, p).g <= node_of(nodes, width, open[i]).g + 1);
    }
}

/// Expanding one more queue entry preserves exactness of the recorded
/// costs: anything reachable within the new frontier cost was either
/// already expanded, or is the entry just expanded.
#[verifier::rlimit(100)]
proof fn lemma_advance(
    start: Pos,
    goal: Pos,
    obs: Seq<Pos>,
    width: usize,
    height: usize,
    nodes: Seq<Node>,
    open: Seq<Pos>,
    qi: int,
)
    requires
        base_inv(start, goal, obs, width, height, nodes, open, qi + 1),
        min_inv(start, goal, obs, width, height, nodes, open, qi),
        0 <= qi < open.len(),
        qi + 1 < open.len() ==> node_of(nodes, width, open[qi + 1]).g <= node_of(
            nodes,
            width,
            open[qi],
        ).g + 1,
    ensures
        min_inv(start, goal, obs, width, height, nodes, open, qi + 1),
{
    reveal(base_inv);
    reveal(min_inv);
    let av = avoid_seq(obs, goal);
    let qi2 = qi + 1;
    let fr = node_of(nodes, width, open[qi]).g;
    assert forall|p: Pos, n: nat|
        #[trigger] reach_n(start, av, width, height, p, n) && (qi2 == open.len() || n < node_of(
            nodes,
            width,
            open[qi2],
        ).g) implies processed(open, qi2, p) && node_of(nodes, width, p).g <= n by {
        if qi2 == open.len() {
            lemma_exhausted(start, goal, obs, width, height, nodes, open, p, n);
        } else {
            if n < fr {
                assert(processed(open, qi, p));
                let i = choose|i: int| 0 <= i < qi && open[i] == p;
                assert(processed(open, qi2, p));
            } else {
                assert(n < node_of(nodes, width, open[qi2]).g <= fr + 1);
                assert(n == fr);
                if n == 0 {
                    assert(p == start && open[0] == start);
                    assert(processed(open, qi2, p));
                } else {
                    let pr = choose|pr: Pos|
                        reach_n(start, av, width, height, pr, (n - 1) as nat) && is_adjacent(
                            pr,
                            p,
                        );
                    assert(reach_n(start, av, width, height, pr, (n - 1) as nat));
                    assert(processed(open, qi, pr) && node_of(nodes, width, pr).g <= n - 1);
                    let i = choose|i: int| 0 <= i < qi && open[i] == pr;
                    assert(free_cell(p, av, width, height) && is_adjacent(open[i], p));
                    assert(disc(nodes, width, p) && node_of(nodes, width, p).g <= node_of(
                        nodes,
                        width,
                        open[i],
                    ).g + 1);
                    assert(node_of(nodes, width, p).g <= n);
                    assert(open.contains(p));
                    let k = choose|k: int| 0 <= k < open.len() && open[k] == p;
                    if k >= qi2 {
                        assert(node_of(nodes, width, open[qi2]).g <= node_of(
                            nodes,
                            width,
                            open[k],
                        ).g);
                        assert(false);
                    }
                    assert(processed(open, qi2, p));
                }
            }
        }
    }
}

/// Updating one cell's record leaves every other cell's record alone.
proof fn lemma_node_frame(nodes: Seq<Node>, width: usize, height: usize, q: Pos, nd: Node)
    requires
        width >= 1,
        pos_in_bounds(q, width, height),
        nodes.len() == width * height,
    ensures
        node_of(nodes.update(q.y * width + q.x, nd), width, q) == nd,
        forall|p: Pos|
            pos_in_bounds(p, width, height) && p != q ==> node_of(
                nodes.update(q.y * width + q.x, nd),
                width,
                p,
            ) == node_of(nodes, width, p),
{
    lemma_cell_index_bounds(q, width, height);
    assert forall|p: Pos| pos_in_bounds(p, width, height) && p != q implies node_of(
        nodes.update(q.y * width + q.x, nd),
        width,
        p,
    ) == node_of(nodes, width, p) by {
        lemma_cell_index_injective(p, q, width, height);
        lemma_cell_index_bounds(p, width, height);
    }
}

/// A fresh arena and a queue holding only the start satisfy the search
/// invariants.
#[verifier::rlimit(100)]
proof fn lemma_init(
    start: Pos,
    goal: Pos,
    obs: Seq<Pos>,
    width: usize,
    height: usize,
    nodes: Seq<Node>,
    open: Seq<Pos>,
)
    requires
        dims_ok(width, height),
        pos_in_bounds(start, width, height),
        start != goal,
        nodes.len() == width * height,
        node_of(nodes, width, start).g == 0,
        node_of(nodes, width, start).parent is None,
        forall|p: Pos|
            pos_in_bounds(p, width, height) && p != start ==> !disc(nodes, width, p),
        open.len() == 1,
        open[0] == start,
    ensures
        base_inv(start, goal, obs, width, height, nodes, open, 0),
        min_inv(start, goal, obs, width, height, nodes, open, 0),
        unfound_inv(goal, width, height, open, 0),
{
    reveal(base_inv);
    reveal(min_inv);
    reveal(unfound_inv);
    let av = avoid_seq(obs, goal);
    assert(1 <= width * height) by (nonlinear_arith)
        requires
            1 <= width,
            1 <= height,
    ;
    assert(disc(nodes, width, start));
    assert(open.contains(start));
    assert forall|p: Pos|
        pos_in_bounds(p, width, height) && #[trigger] disc(nodes, width, p) implies open.contains(
        p,
    ) by {
        if p != start {
            assert(!disc(nodes, width, p));
        }
    }
    assert forall|p: Pos|
        pos_in_bounds(p, width, height) && #[trigger] disc(nodes, width, p) implies reach_n(
        start,
        av,
        width,
        height,
        p,
        node_of(nodes, width, p).g as nat,
    ) by {
        if p != start {
            assert(!disc(nodes, width, p));
        } else {
            assert(reach_n(start, av, width, height, start, 0));
        }
    }
    assert forall|p: Pos, n: nat|
        #[trigger] reach_n(start, av, width, height, p, n) && (0 == open.len() || n < node_of(
            nodes,
            width,
            open[0],
        ).g) implies processed(open, 0, p) && node_of(nodes, width, p).g <= n by {
        assert(n < 0);
    }
}

/// The scalar facts the invariant holds about its arena and queue.
proof fn lemma_base_scalars(
    start: Pos,
    goal: Pos,
    obs: Seq<Pos>,
    width: usize,
    height: usize,
    nodes: Seq<Node>,
    open: Seq<Pos>,
    qi: int,
)
    requires
        base_inv(start, goal, obs, width, height, nodes, open, qi),
    ensures
        dims_ok(width, height),
        pos_in_bounds(start, width, height),
        start != goal,
        nodes.len() == width * height,
        1 <= open.len() <= width * height,
        open[0] == start,
        open.no_duplicates(),
        0 <= qi <= open.len(),
        disc(nodes, width, start),
        node_of(nodes, width, start).g == 0,
        node_of(nodes, width, start).parent is None,
        forall|i: int| 0 <= i < open.len() ==> pos_in_bounds(#[trigger] open[i], width, height),
        forall|i: int| 0 <= i < open.len() ==> disc(nodes, width, #[trigger] open[i]),
        forall|i: int| 0 <= i < open.len() ==> node_of(nodes, width, #[trigger] open[i]).g <= i,
        forall|p: Pos|
            pos_in_bounds(p, width, height) && #[trigger] disc(nodes, width, p) ==> open.contains(
                p,
            ),
{
    reveal(base_inv);
}

/// The conjuncts of the invariant, one by one, imply it.
#[verifier::rlimit(100)]
proof fn lemma_push_assemble(
    start: Pos,
    goal: Pos,
    obs: Seq<Pos>,
    width: usize,
    height: usize,
    nodes2: Seq<Node>,
    open2: Seq<Pos>,
    qi: int,
)
    requires
        dims_ok(width, height),
        pos_in_bounds(start, width, height),
        start != goal,
        nodes2.len() == width * height,
        1 <= open2.len() <= width * height,
        open2[0] == start,
        open2.no_duplicates(),
        0 <= qi <= open2.len(),
        forall|i: int| 0 <= i < open2.len() ==> pos_in_bounds(#[trigger] open2[i], width, height),
        forall|i: int| 0 <= i < open2.len() ==> disc(nodes2, width, #[trigger] open2[i]),
        forall|i: int|
            0 <= i < open2.len() ==> node_of(nodes2, width, #[trigger] open2[i]).g <= i,
        forall|p: Pos|
            pos_in_bounds(p, width, height) && #[trigger] disc(nodes2, width, p) ==> open2
                .contains(p),
        disc(nodes2, width, start),
        node_of(nodes2, width, start).g == 0,
        node_of(nodes2, width, start).parent is None,
        forall|p: Pos|
            pos_in_bounds(p, width, height) && #[trigger] disc(nodes2, width, p) && p != start
                ==> (free_cell(p, avoid_seq(obs, goal), width, height) && (node_of(
                nodes2,
                width,
                p,
            ).parent matches Some(pq) && pos_in_bounds(pq, width, height) && disc(
                nodes2,
                width,
                pq,
            ) && is_adjacent(pq, p) && node_of(nodes2, width, p).g == node_of(
                nodes2,
                width,
                pq,
            ).g + 1)),
        forall|p: Pos|
            pos_in_bounds(p, width, height) && #[trigger] disc(nodes2, width, p) ==> reach_n(
                start,
                avoid_seq(obs, goal),
                width,
                height,
                p,
                node_of(nodes2, width, p).g as nat,
            ),
        forall|i: int, j: int|
            0 <= i <= j < open2.len() ==> node_of(nodes2, width, #[trigger] open2[i]).g
                <= node_of(nodes2, width, #[trigger] open2[j]).g,
        qi < open2.len() ==> forall|j: int|
            qi <= j < open2.len() ==> node_of(nodes2, width, #[trigger] open2[j]).g <= node_of(
                nodes2,
                width,
                open2[qi],
            ).g + 1,
        forall|i: int, q: Pos|
            0 <= i < qi && free_cell(q, avoid_seq(obs, goal), width, height)
                && #[trigger] is_adjacent(open2[i], q) ==> disc(nodes2, width, q) && node_of(
                nodes2,
                width,
                q,
            ).g <= node_of(nodes2, width, open2[i]).g + 1,
    ensures
        base_inv(start, goal, obs, width, height, nodes2, open2, qi),
{
    reveal(base_inv);
}

/// The queue-shaped half of what a discovery step must re-establish.
#[verifier::rlimit(100)]
proof fn lemma_push_queue(
    start: Pos,
    goal: Pos,
    obs: Seq<Pos>,
    width: usize,
    height: usize,
    nodes: Seq<Node>,
    open: Seq<Pos>,
    qi: int,
    q: Pos,
    nd: Node,
)
    requires
        dims_ok(width, height),
        nodes.len() == width * height,
        1 <= open.len() <= width * height,
        open.no_duplicates(),
        0 <= qi < open.len(),
        forall|i: int| 0 <= i < open.len() ==> pos_in_bounds(#[trigger] open[i], width, height),
        forall|i: int| 0 <= i < open.len() ==> disc(nodes, width, #[trigger] open[i]),
        forall|i: int| 0 <= i < open.len() ==> node_of(nodes, width, #[trigger] open[i]).g <= i,
        forall|p: Pos|
            pos_in_bounds(p, width, height) && #[trigger] disc(nodes, width, p) ==> open.contains(
                p,
            ),
        pos_in_bounds(q, width, height),
        !disc(nodes, width, q),
        nd.g == node_of(nodes, width, open[qi]).g + 1,
    ensures
        ({
            let nodes2 = nodes.update(q.y * width + q.x, nd);
            let open2 = open.push(q);
            &&& open2.no_duplicates()
            &&& 1 <= open2.len() <= width * height
            &&& forall|i: int|
                0 <= i < open2.len() ==> pos_in_bounds(#[trigger] open2[i], width, height)
            &&& forall|i: int| 0 <= i < open2.len() ==> disc(nodes2, width, #[trigger] open2[i])
            &&& forall|i: int|
                0 <= i < open2.len() ==> node_of(nodes2, width, #[trigger] open2[i]).g <= i
            &&& forall|p: Pos|
                pos_in_bounds(p, width, height) && #[trigger] disc(nodes2, width, p) ==> open2
                    .contains(p)
        }),
{
    let cur = open[qi];
    let cg = node_of(nodes, width, cur).g;
    let nodes2 = nodes.update(q.y * width + q.x, nd);
    let open2 = open.push(q);
    lemma_node_frame(nodes, width, height, q, nd);
    assert(node_of(nodes2, width, q) == nd);
    assert(cg <= qi);
    assert(width * height <= 46340 * 46340) by (nonlinear_arith)
        requires
            1 <= width <= 46340,
            1 <= height <= 46340,
    ;
    assert(nd.g != usize::MAX);
    assert(open2[open.len() as int] == q);
    assert(forall|i: int| 0 <= i < open.len() ==> open2[i] == open[i]);
    assert forall|a: int, b: int| 0 <= a < b < open2.len() implies open2[a] != open2[b] by {
        if b < open2.len() - 1 {
            assert(open[a] != open[b]);
        } else {
            assert(disc(nodes, width, open[a]));
            assert(open[a] != q);
        }
    }
    assert(open2.no_duplicates());
    assert forall|i: int| 0 <= i < open2.len() implies pos_in_bounds(
        #[trigger] open2[i],
        width,
        height,
    ) by {
        if i < open.len() {
            assert(open2[i] == open[i]);
        }
    }
    lemma_bounded_seq_len(open2, width, height);
    assert forall|p: Pos|
        pos_in_bounds(p, width, height) && #[trigger] disc(nodes2, width, p) implies open2
        .contains(p) by {
        if p != q {
            assert(disc(nodes, width, p));
            assert(open.contains(p));
            let i = choose|i: int| 0 <= i < open.len() && open[i] == p;
            assert(open2[i] == p);
        } else {
            assert(open2[open.len() as int] == q);
        }
    }
    assert forall|i: int| 0 <= i < open2.len() implies disc(nodes2, width, #[trigger] open2[i])
        && node_of(nodes2, width, open2[i]).g <= i by {
        if i < open.len() {
            assert(open2[i] == open[i]);
            assert(disc(nodes, width, open[i]));
            if open2[i] != q {
            }
        } else {
            assert(open2[i] == q);
        }
    }
}

/// The cost order along the queue survives appending the fresh cell,
/// which costs exactly one more than the entry under expansion.
#[verifier::rlimit(100)]
proof fn lemma_push_order(
    start: Pos,
    goal: Pos,
    obs: Seq<Pos>,
    width: usize,
    height: usize,
    nodes: Seq<Node>,
    open: Seq<Pos>,
    qi: int,
    q: Pos,
    nd: Node,
)
    requires
        base_inv(start, goal, obs, width, height, nodes, open, qi),
        0 <= qi < open.len(),
        pos_in_bounds(q, width, height),
        !disc(nodes, width, q),
        nd.g == node_of(nodes, width, open[qi]).g + 1,
    ensures
        ({
            let nodes2 = nodes.update(q.y * width + q.x, nd);
            let open2 = open.push(q);
            &&& forall|i: int, j: int|
                0 <= i <= j < open2.len() ==> node_of(nodes2, width, #[trigger] open2[i]).g
                    <= node_of(nodes2, width, #[trigger] open2[j]).g
            &&& (qi < open2.len() ==> forall|j: int|
                qi <= j < open2.len() ==> node_of(nodes2, width, #[trigger] open2[j]).g
                    <= node_of(nodes2, width, open2[qi]).g + 1)
        }),
{
    reveal(base_inv);
    let cur = open[qi];
    let cg = node_of(nodes, width, cur).g;
    let nodes2 = nodes.update(q.y * width + q.x, nd);
    let open2 = open.push(q);
    lemma_node_frame(nodes, width, height, q, nd);
    assert(node_of(nodes2, width, q) == nd);
    assert(open2[open.len() as int] == q);
    assert(forall|i: int| 0 <= i < open.len() ==> open2[i] == open[i]);
    assert forall|i: int, j: int| 0 <= i <= j < open2.len() implies node_of(
        nodes2,
        width,
        #[trigger] open2[i],
    ).g <= node_of(nodes2, width, #[trigger] open2[j]).g by {
        if j < open.len() {
            assert(open2[i] == open[i] && open2[j] == open[j]);
            assert(open[i] != q && open[j] != q);
        } else {
            assert(open2[j] == q);
            if i < open.len() {
                assert(open2[i] == open[i] && open[i] != q);
                if qi <= i {
                    assert(node_of(nodes, width, open[i]).g <= cg + 1);
                } else {
                    assert(node_of(nodes, width, open[i]).g <= node_of(
                        nodes,
                        width,
                        open[qi],
                    ).g);
                }
            }
        }
    }
    assert forall|j: int|
        qi <= j < open2.len() implies node_of(nodes2, width, #[trigger] open2[j]).g <= node_of(
        nodes2,
        width,
        open2[qi],
    ).g + 1 by {
        assert(open2[qi] == cur && cur != q);
        if j < open.len() {
            assert(open2[j] == open[j] && open[j] != q);
        } else {
            assert(open2[j] == q);
        }
    }
}

/// The cell-record half of what a discovery step must re-establish.
#[verifier::rlimit(100)]
proof fn lemma_push_nodes(
    start: Pos,
    goal: Pos,
    obs: Seq<Pos>,
    width: usize,
    height: usize,
    nodes: Seq<Node>,
    open: Seq<Pos>,
    qi: int,
    q: Pos,
    nd: Node,
)
    requires
        base_inv(start, goal, obs, width, height, nodes, open, qi),
        0 <= qi < open.len(),
        pos_in_bounds(q, width, height),
        is_adjacent(open[qi], q),
        !disc(nodes, width, q),
        free_cell(q, avoid_seq(obs, goal), width, height),
        nd.parent == Some(open[qi]),
        nd.g == node_of(nodes, width, open[qi]).g + 1,
    ensures
        ({
            let nodes2 = nodes.update(q.y * width + q.x, nd);
            let open2 = open.push(q);
            let av = avoid_seq(obs, goal);
            &&& disc(nodes2, width, start)
            &&& node_of(nodes2, width, start).g == 0
            &&& node_of(nodes2, width, start).parent is None
            &&& forall|p: Pos|
                pos_in_bounds(p, width, height) && #[trigger] disc(nodes2, width, p) && p != start
                    ==> (free_cell(p, av, width, height) && (node_of(
                    nodes2,
                    width,
                    p,
                ).parent matches Some(pq) && pos_in_bounds(pq, width, height) && disc(
                    nodes2,
                    width,
                    pq,
                ) && is_adjacent(pq, p) && node_of(nodes2, width, p).g == node_of(
                    nodes2,
                    width,
                    pq,
                ).g + 1))
            &&& forall|p: Pos|
                pos_in_bounds(p, width, height) && #[trigger] disc(nodes2, width, p) ==> reach_n(
                    start,
                    av,
                    width,
                    height,
                    p,
                    node_of(nodes2, width, p).g as nat,
                )
            &&& forall|i: int, q2: Pos|
                0 <= i < qi && free_cell(q2, av, width, height) && #[trigger] is_adjacent(
                    open2[i],
                    q2,
                ) ==> disc(nodes2, width, q2) && node_of(nodes2, width, q2).g <= node_of(
                    nodes2,
                    width,
                    open2[i],
                ).g + 1
        }),
{
    reveal(base_inv);
    let av = avoid_seq(obs, goal);
    let cur = open[qi];
    let cg = node_of(nodes, width, cur).g;
    let nodes2 = nodes.update(q.y * width + q.x, nd);
    let open2 = open.push(q);
    lemma_node_frame(nodes, width, height, q, nd);
    assert(node_of(nodes2, width, q) == nd);
    assert(forall|i: int| 0 <= i < open.len() ==> open2[i] == open[i]);
    assert(q != start);
    assert(reach_n(start, av, width, height, cur, cg as nat));
    assert(reach_n(start, av, width, height, q, (cg + 1) as nat));
    assert forall|p: Pos|
        pos_in_bounds(p, width, height) && #[trigger] disc(nodes2, width, p) && p != start
        implies (free_cell(p, av, width, height) && (node_of(nodes2, width, p).parent matches Some(
        pq,
    ) && pos_in_bounds(pq, width, height) && disc(nodes2, width, pq) && is_adjacent(pq, p)
        && node_of(nodes2, width, p).g == node_of(nodes2, width, pq).g + 1)) by {
        if p == q {
            assert(node_of(nodes2, width, q).parent == Some(cur));
            assert(cur != q);
            assert(node_of(nodes2, width, cur) == node_of(nodes, width, cur));
        } else {
            assert(disc(nodes, width, p));
            let pq = node_of(nodes, width, p).parent->Some_0;
            assert(disc(nodes, width, pq));
            assert(pq != q);
        }
    }
    assert forall|p: Pos|
        pos_in_bounds(p, width, height) && #[trigger] disc(nodes2, width, p) implies reach_n(
        start,
        av,
        width,
        height,
        p,
        node_of(nodes2, width, p).g as nat,
    ) by {
        if p != q {
            assert(disc(nodes, width, p));
        }
    }
    assert forall|i: int, q2: Pos|
        0 <= i < qi && free_cell(q2, av, width, height) && #[trigger] is_adjacent(open2[i], q2)
        implies disc(nodes2, width, q2) && node_of(nodes2, width, q2).g <= node_of(
        nodes2,
        width,
        open2[i],
    ).g + 1 by {
        assert(open2[i] == open[i] && open[i] != q);
        assert(disc(nodes, width, q2));
        if q2 != q {
        }
    }
}

/// Discovering a fresh free neighbor of the entry under expansion
/// preserves the search invariants: it is recorded one step dearer than
/// its parent and appended to the queue.
#[verifier::rlimit(100)]
proof fn lemma_push_step(
    start: Pos,
    goal: Pos,
    obs: Seq<Pos>,
    width: usize,
    height: usize,
    nodes: Seq<Node>,
    open: Seq<Pos>,
    qi: int,
    q: Pos,
    nd: Node,
)
    requires
        base_inv(start, goal, obs, width, height, nodes, open, qi),
        0 <= qi < open.len(),
        pos_in_bounds(q, width, height),
        is_adjacent(open[qi], q),
        !disc(nodes, width, q),
        free_cell(q, avoid_seq(obs, goal), width, height),
        nd.parent == Some(open[qi]),
        nd.g == node_of(nodes, width, open[qi]).g + 1,
        unfound_inv(goal, width, height, open, qi),
    ensures
        unfound_inv(goal, width, height, open.push(q), qi),
        base_inv(
            start,
            goal,
            obs,
            width,
            height,
            nodes.update(q.y * width + q.x, nd),
            open.push(q),
            qi,
        ),
{
    let nodes2 = nodes.update(q.y * width + q.x, nd);
    let open2 = open.push(q);
    lemma_base_scalars(start, goal, obs, width, height, nodes, open, qi);
    lemma_cell_index_bounds(q, width, height);
    lemma_node_frame(nodes, width, height, q, nd);
    lemma_push_queue(start, goal, obs, width, height, nodes, open, qi, q, nd);
    lemma_push_order(start, goal, obs, width, height, nodes, open, qi, q, nd);
    lemma_push_nodes(start, goal, obs, width, height, nodes, open, qi, q, nd);
    assert(open2[0] == open[0]);
    lemma_push_assemble(start, goal, obs, width, height, nodes2, open2, qi);
    assert forall|i: int|
        0 <= i < qi implies !(pos_in_bounds(goal, width, height) && is_adjacent(
        #[trigger] open2[i],
        goal,
    )) by {
        reveal(unfound_inv);
        assert(open2[i] == open[i]);
    }
    assert(unfound_inv(goal, width, height, open2, qi)) by {
        reveal(unfound_inv);
    }
}

/// Discovering a fresh cell leaves cost exactness untouched: the new cell
/// was never expanded, and nothing expanded changed.
#[verifier::rlimit(100)]
proof fn lemma_push_min(
    start: Pos,
    goal: Pos,
    obs: Seq<Pos>,
    width: usize,
    height: usize,
    nodes: Seq<Node>,
    open: Seq<Pos>,
    qi: int,
    q: Pos,
    nd: Node,
)
    requires
        base_inv(start, goal, obs, width, height, nodes, open, qi),
        min_inv(start, goal, obs, width, height, nodes, open, qi),
        0 <= qi < open.len(),
        pos_in_bounds(q, width, height),
        !disc(nodes, width, q),
    ensures
        min_inv(
            start,
            goal,
            obs,
            width,
            height,
            nodes.update(q.y * width + q.x, nd),
            open.push(q),
            qi,
        ),
{
    reveal(base_inv);
    reveal(min_inv);
    let av = avoid_seq(obs, goal);
    let cur = open[qi];
    let nodes2 = nodes.update(q.y * width + q.x, nd);
    let open2 = open.push(q);
    lemma_node_frame(nodes, width, height, q, nd);
    assert forall|p: Pos, n: nat|
        #[trigger] reach_n(start, av, width, height, p, n) && (qi == open2.len() || n < node_of(
            nodes2,
            width,
            open2[qi],
        ).g) implies processed(open2, qi, p) && node_of(nodes2, width, p).g <= n by {
        assert(open2[qi] == cur);
        assert(disc(nodes, width, cur));
        assert(cur != q);
        assert(node_of(nodes2, width, cur) == node_of(nodes, width, cur));
        assert(processed(open, qi, p) && node_of(nodes, width, p).g <= n);
        let i = choose|i: int| 0 <= i < qi && open[i] == p;
        assert(open2[i] == p);
        assert(disc(nodes, width, p));
        assert(p != q);
    }
}

/// After every neighbor of the entry under expansion has been examined
/// without meeting the goal, the entry counts as expanded and all the
/// invariants carry over to the next queue position.
#[verifier::rlimit(100)]
proof fn lemma_close_cur(
    start: Pos,
    goal: Pos,
    obs: Seq<Pos>,
    width: usize,
    height: usize,
    nodes: Seq<Node>,
    open: Seq<Pos>,
    qi: int,
)
    requires
        base_inv(start, goal, obs, width, height, nodes, open, qi),
        min_inv(start, goal, obs, width, height, nodes, open, qi),
        unfound_inv(goal, width, height, open, qi),
        0 <= qi < open.len(),
        forall|t: int|
            0 <= t < neighbor_seq(open[qi], width, height).len() ==> neighbor_seq(
                open[qi],
                width,
                height,
            )[t] != goal,
        forall|t: int|
            0 <= t < neighbor_seq(open[qi], width, height).len() && free_cell(
                #[trigger] neighbor_seq(open[qi], width, height)[t],
                avoid_seq(obs, goal),
                width,
                height,
            ) ==> disc(nodes, width, neighbor_seq(open[qi], width, height)[t]) && node_of(
                nodes,
                width,
                neighbor_seq(open[qi], width, height)[t],
            ).g <= node_of(nodes, width, open[qi]).g + 1,
    ensures
        base_inv(start, goal, obs, width, height, nodes, open, qi + 1),
        min_inv(start, goal, obs, width, height, nodes, open, qi + 1),
        unfound_inv(goal, width, height, open, qi + 1),
{
    reveal(base_inv);
    reveal(unfound_inv);
    let av = avoid_seq(obs, goal);
    let cur = open[qi];
    let nseq = neighbor_seq(cur, width, height);
    crate::grid::lemma_neighbor_seq_complete(cur, width, height);
    assert forall|i: int, q: Pos|
        0 <= i < qi + 1 && free_cell(q, av, width, height) && #[trigger] is_adjacent(open[i], q)
        implies disc(nodes, width, q) && node_of(nodes, width, q).g <= node_of(
        nodes,
        width,
        open[i],
    ).g + 1 by {
        if i == qi {
            assert(nseq.contains(q));
            let t = choose|t: int| 0 <= t < nseq.len() && nseq[t] == q;
            assert(free_cell(nseq[t], av, width, height));
        }
    }
    assert forall|i: int| 0 <= i < qi + 1 implies !(pos_in_bounds(goal, width, height)
        && is_adjacent(#[trigger] open[i], goal)) by {
        if i == qi {
            if pos_in_bounds(goal, width, height) && is_adjacent(cur, goal) {
                assert(nseq.contains(goal));
                let t = choose|t: int| 0 <= t < nseq.len() && nseq[t] == goal;
                assert(false);
            }
        }
    }
    assert(base_inv(start, goal, obs, width, height, nodes, open, qi + 1));
    lemma_advance(start, goal, obs, width, height, nodes, open, qi);
}


/// What the expansion loop reads off the invariant about the entry it is
/// about to expand.
proof fn lemma_entry_facts(
    start: Pos,
    goal: Pos,
    obs: Seq<Pos>,
    width: usize,
    height: usize,
    nodes: Seq<Node>,
    open: Seq<Pos>,
    qi: int,
)
    requires
        base_inv(start, goal, obs, width, height, nodes, open, qi),
        0 <= qi < open.len(),
    ensures
        pos_in_bounds(open[qi], width, height),
        disc(nodes, width, open[qi]),
        node_of(nodes, width, open[qi]).g <= qi,
        open.len() <= width * height,
        nodes.len() == width * height,
{
    reveal(base_inv);
}

/// A cell already discovered while some queue entry is still unexpanded
/// costs at most one more than that entry.
proof fn lemma_disc_g_bound(
    start: Pos,
    goal: Pos,
    obs: Seq<Pos>,
    width: usize,
    height: usize,
    nodes: Seq<Node>,
    open: Seq<Pos>,
    qi: int,
    p: Pos,
)
    requires
        base_inv(start, goal, obs, width, height, nodes, open, qi),
        0 <= qi < open.len(),
        pos_in_bounds(p, width, height),
        disc(nodes, width, p),
    ensures
        node_of(nodes, width, p).g <= node_of(nodes, width, open[qi]).g + 1,
{
    reveal(base_inv);
    assert(open.contains(p));
    let k = choose|k: int| 0 <= k < open.len() && open[k] == p;
    if k <= qi {
        assert(node_of(nodes, width, open[k]).g <= node_of(nodes, width, open[qi]).g);
    }
}

/// What the invariant records about any discovered cell: it is reachable
/// at its recorded cost, and a non-start cell is free with a parent one
/// step cheaper.
proof fn lemma_disc_facts(
    start: Pos,
    goal: Pos,
    obs: Seq<Pos>,
    width: usize,
    height: usize,
    nodes: Seq<Node>,
    open: Seq<Pos>,
    qi: int,
    p: Pos,
)
    requires
        base_inv(start, goal, obs, width, height, nodes, open, qi),
        pos_in_bounds(p, width, height),
        disc(nodes, width, p),
    ensures
        nodes.len() == width * height,
        reach_n(
            start,
            avoid_seq(obs, goal),
            width,
            height,
            p,
            node_of(nodes, width, p).g as nat,
        ),
        p != start ==> free_cell(p, avoid_seq(obs, goal), width, height) && (node_of(
            nodes,
            width,
            p,
        ).parent matches Some(q) && pos_in_bounds(q, width, height) && disc(nodes, width, q)
            && is_adjacent(q, p) && node_of(nodes, width, p).g == node_of(nodes, width, q).g + 1),
        p == start ==> node_of(nodes, width, p).g == 0,
{
    reveal(base_inv);
}

/// When the queue runs dry without meeting the goal, no walk of any
/// length reaches the goal.
proof fn lemma_no_route(
    start: Pos,
    goal: Pos,
    obs: Seq<Pos>,
    width: usize,
    height: usize,
    nodes: Seq<Node>,
    open: Seq<Pos>,
)
    requires
        base_inv(start, goal, obs, width, height, nodes, open, open.len() as int),
        min_inv(start, goal, obs, width, height, nodes, open, open.len() as int),
        unfound_inv(goal, width, height, open, open.len() as int),
    ensures
        forall|n: nat| !goal_reach_n(start, goal, obs, width, height, n),
{
    reveal(min_inv);
    reveal(unfound_inv);
    let av = avoid_seq(obs, goal);
    let qi = open.len() as int;
    assert forall|n: nat| !goal_reach_n(start, goal, obs, width, height, n) by {
        if goal_reach_n(start, goal, obs, width, height, n) {
            let c = choose|c: Pos|
                reach_n(start, av, width, height, c, (n - 1) as nat) && is_adjacent(c, goal);
            assert(reach_n(start, av, width, height, c, (n - 1) as nat));
            assert(processed(open, qi, c));
            let i = choose|i: int| 0 <= i < qi && open[i] == c;
            assert(!(pos_in_bounds(goal, width, height) && is_adjacent(open[i], goal)));
            assert(false);
        }
    }
}

/// A walk reads only the directions it takes: appending one more leaves
/// every earlier position unchanged.
proof fn lemma_walk_prefix(start: Pos, dirs: Seq<Direction>, d: Direction, k: int)
    requires
        0 <= k <= dirs.len(),
    ensures
        walk_pos(start, dirs.push(d), k) == walk_pos(start, dirs, k),
    decreases k,
{
    if k > 0 {
        lemma_walk_prefix(start, dirs, d, k - 1);
        assert(dirs.push(d)[k - 1] == dirs[k - 1]);
    }
}

/// The flat row-major index of a cell.
fn idx_of(p: Pos, width: usize, height: usize) -> (r: usize)
    requires
        dims_ok(width, height),
        pos_in_bounds(p, width, height),
    ensures
        r == p.y * width + p.x,
        r < width * height,
    {
    proof {
        lemma_cell_index_bounds(p, width, height);
        assert(width * height <= 46340 * 46340) by (nonlinear_arith)
            requires
                1 <= width <= 46340,
                1 <= height <= 46340,
        ;
    }
    p.y * width + p.x
}

/// Appending the hop onto the goal turns a parent-chain walk into a
/// collision-free route of exactly the chain's cost plus one.
#[verifier::rlimit(100)]
proof fn lemma_finish_route(
    start: Pos,
    goal: Pos,
    obs: Seq<Pos>,
    width: usize,
    height: usize,
    nodes: Seq<Node>,
    open: Seq<Pos>,
    qi: int,
    rev: Seq<Pos>,
    before: Seq<Direction>,
    d: Direction,
)
    requires
        base_inv(start, goal, obs, width, height, nodes, open, qi),
        pos_in_bounds(goal, width, height),
        rev.len() >= 1,
        rev[rev.len() - 1] == start,
        dir_to_spec(rev[0], goal) == Some(d),
        before.len() == rev.len() - 1,
        forall|k: int|
            0 <= k <= before.len() ==> walk_pos(start, before, k) == rev[rev.len() - 1 - k],
        forall|k: int|
            0 <= k < before.len() ==> can_step(
                walk_pos(start, before, k),
                #[trigger] before[k],
                width,
                height,
            ),
        forall|tt: int|
            0 <= tt < rev.len() ==> pos_in_bounds(#[trigger] rev[tt], width, height) && disc(
                nodes,
                width,
                rev[tt],
            ) && node_of(nodes, width, rev[tt]).g == node_of(nodes, width, rev[0]).g - tt,
    ensures
        path_ok(start, goal, obs, width, height, before.push(d)),
        before.push(d).len() == node_of(nodes, width, rev[0]).g + 1,
{
    let av = avoid_seq(obs, goal);
    let cfrom = rev[0];
    let rl = rev.len() as int;
    let dirs = before.push(d);
    let ln = dirs.len() as int;
    assert(node_of(nodes, width, rev[rl - 1]).g == node_of(nodes, width, cfrom).g - (rl - 1));
    assert(node_of(nodes, width, start).g == 0) by {
        lemma_base_scalars(start, goal, obs, width, height, nodes, open, qi);
    }
    assert(node_of(nodes, width, cfrom).g == rl - 1);
    assert(is_step(cfrom, d, goal));
    lemma_step_cell(cfrom, d, width, height);
    lemma_step_in_bounds(cfrom, d, goal, width, height);
    assert forall|k: int| 0 <= k <= ln implies walk_pos(start, dirs, k) == (if k < ln {
        rev[rl - 1 - k]
    } else {
        goal
    }) by {
        if k < ln {
            lemma_walk_prefix(start, before, d, k);
        } else {
            lemma_walk_prefix(start, before, d, k - 1);
            assert(walk_pos(start, dirs, k - 1) == rev[0]);
            assert(dirs[k - 1] == d);
        }
    }
    assert forall|k: int| 0 <= k < ln implies can_step(
        walk_pos(start, dirs, k),
        #[trigger] dirs[k],
        width,
        height,
    ) by {
        if k < ln - 1 {
            assert(dirs[k] == before[k]);
            lemma_walk_prefix(start, before, d, k);
        } else {
            assert(walk_pos(start, dirs, k) == rev[0]);
        }
    }
    assert forall|k: int| 1 <= k < ln implies !obs.contains(#[trigger] walk_pos(start, dirs, k))
        && walk_pos(start, dirs, k) != goal by {
        let cell = rev[rl - 1 - k];
        assert(walk_pos(start, dirs, k) == cell);
        assert(node_of(nodes, width, cell).g == k);
        assert(cell != start);
        lemma_disc_facts(start, goal, obs, width, height, nodes, open, qi, cell);
        assert(free_cell(cell, av, width, height));
        lemma_push_contains(obs, goal);
        assert(!av.contains(cell));
    }
    assert(walk_pos(start, dirs, ln) == goal);
}

/// Walk the parent links from the cell that touched the goal back to
/// the start, then emit the route's directions, ending with the hop
/// onto the goal.
#[verifier::rlimit(100)]
fn reconstruct_route(
    start: &Pos,
    end: &Pos,
    nodes: &Vec<Node>,
    cfrom: Pos,
    w: usize,
    h: usize,
    Ghost(obs): Ghost<Seq<Pos>>,
    Ghost(open): Ghost<Seq<Pos>>,
    Ghost(qi): Ghost<int>,
) -> (r: Vec<Direction>)
    requires
        dims_ok(w, h),
        base_inv(*start, *end, obs, w, h, nodes@, open, qi),
        pos_in_bounds(cfrom, w, h),
        disc(nodes@, w, cfrom),
        pos_in_bounds(*end, w, h),
        is_adjacent(cfrom, *end),
    ensures
        r@.len() == node_of(nodes@, w, cfrom).g + 1,
        path_ok(*start, *end, obs, w, h, r@),
{
    let ghost av = avoid_seq(obs, *end);
    proof {
        lemma_base_scalars(*start, *end, obs, w, h, nodes@, open, qi);
    }
        // walk the parent links back to the start
        let ghost cg_final = node_of(nodes@, w, cfrom).g;
        let mut rev: Vec<Pos> = Vec::new();
        rev.push(cfrom);
        let mut p = cfrom;
        while !(p.x == start.x && p.y == start.y)
            invariant
                dims_ok(w, h),
                base_inv(*start, *end, obs, w, h, nodes@, open, qi),
                av == avoid_seq(obs, *end),
                pos_in_bounds(p, w, h),
                disc(nodes@, w, p),
                rev@.len() >= 1,
                rev@[0] == cfrom,
                rev@[rev@.len() - 1] == p,
                rev@.len() - 1 + node_of(nodes@, w, p).g == cg_final,
                forall|t: int|
                    0 <= t < rev@.len() ==> pos_in_bounds(#[trigger] rev@[t], w, h)
                        && disc(nodes@, w, rev@[t]) && node_of(nodes@, w, rev@[t]).g
                        == cg_final - t,
                forall|t: int|
                    0 <= t < rev@.len() - 1 ==> node_of(
                        nodes@,
                        w,
                        #[trigger] rev@[t],
                    ).parent == Some(rev@[t + 1]) && is_adjacent(rev@[t + 1], rev@[t]),
            decreases node_of(nodes@, w, p).g,
        {
            proof {
                assert(p != *start);
                lemma_disc_facts(*start, *end, obs, w, h, nodes@, open, qi, p);
            }
            match nodes[idx_of(p, w, h)].parent {
                Some(pp) => {
                    rev.push(pp);
                    p = pp;
                },
                None => {
                    proof {
                        assert(false);
                    }
                },
            }
        }
        proof {
            assert(p == *start);
            lemma_disc_facts(*start, *end, obs, w, h, nodes@, open, qi, p);
            assert(node_of(nodes@, w, *start).g == 0);
            assert(rev@.len() == cg_final + 1);
        }
        // emit directions from the start toward the goal's edge
        let ghost rl = rev@.len() as int;
        let mut path: Vec<Direction> = Vec::new();
        let mut t: usize = rev.len();
        while t >= 2
            invariant
                dims_ok(w, h),
                av == avoid_seq(obs, *end),
                1 <= t <= rl,
                rl == rev@.len(),
                rev@[rl - 1] == *start,
                path@.len() == rl - t,
                forall|k: int|
                    0 <= k <= path@.len() ==> walk_pos(*start, path@, k) == rev@[rl - 1
                        - k],
                forall|k: int|
                    0 <= k < path@.len() ==> can_step(
                        walk_pos(*start, path@, k),
                        #[trigger] path@[k],
                        w,
                        h,
                    ),
                forall|tt: int|
                    0 <= tt < rl ==> pos_in_bounds(#[trigger] rev@[tt], w, h) && disc(
                        nodes@,
                        w,
                        rev@[tt],
                    ) && node_of(nodes@, w, rev@[tt]).g == cg_final - tt,
                forall|tt: int|
                    0 <= tt < rl - 1 ==> is_adjacent(rev@[tt + 1], #[trigger] rev@[tt]),
                base_inv(*start, *end, obs, w, h, nodes@, open, qi),
            decreases t,
        {
            let a = rev[t - 1];
            let b = rev[t - 2];
            proof {
                assert(is_adjacent(rev@[t - 1], rev@[t - 2]));
                lemma_adjacent_characterization(a, b);
            }
            match a.get_dir_to(&b) {
                Some(d) => {
                    let ghost before_path = path@;
                    path.push(d);
                    proof {
                        assert(dir_to_spec(a, b) == Some(d));
                        assert(is_step(a, d, b));
                        lemma_step_cell(a, d, w, h);
                        lemma_step_in_bounds(a, d, b, w, h);
                        assert forall|k: int| 0 <= k <= path@.len() implies walk_pos(
                            *start,
                            path@,
                            k,
                        ) == rev@[rl - 1 - k] by {
                            if k < path@.len() {
                                lemma_walk_prefix(*start, before_path, d, k);
                            } else {
                                lemma_walk_prefix(*start, before_path, d, k - 1);
                                assert(walk_pos(*start, path@, k - 1) == rev@[rl - 1 - (k
                                    - 1)]);
                                assert(path@[k - 1] == d);
                                assert(step_cell(a, d) == b);
                            }
                        }
                        assert forall|k: int| 0 <= k < path@.len() implies can_step(
                            walk_pos(*start, path@, k),
                            #[trigger] path@[k],
                            w,
                            h,
                        ) by {
                            if k < path@.len() - 1 {
                                assert(path@[k] == before_path[k]);
                                lemma_walk_prefix(*start, before_path, d, k);
                            } else {
                                assert(walk_pos(*start, path@, k) == rev@[rl - 1 - k]);
                            }
                        }
                    }
                },
                None => {
                    proof {
                        assert(false);
                    }
                },
            }
            t -= 1;
        }
        proof {
            assert(t == 1);
            assert(path@.len() == rl - 1);
            assert(walk_pos(*start, path@, rl - 1) == rev@[0]);
        }
        // the final hop onto the goal
        proof {
            lemma_adjacent_characterization(cfrom, *end);
        }
        match cfrom.get_dir_to(end) {
            Some(d) => {
                proof {
                    lemma_finish_route(
                        *start,
                        *end,
                        obs,
                        w,
                        h,
                        nodes@,
                        open,
                        qi,
                        rev@,
                        path@,
                        d,
                    );
                }
                path.push(d);
            },
            None => {
                proof {
                    assert(false);
                }
            },
        }
        path
}

impl AStar {
    /// The planner's grid size is sound and the cursor never outruns the
    /// route.
    pub open spec fn wf(self) -> bool {
        dims_ok(self.width, self.height) && self.path_index <= self.path@.len()
    }

    /// A route to `end` is in hand.
    pub open spec fn found(self) -> bool {
        self.end is Some
    }

    /// A fresh planner with no route. `random_dir` selects the fallback
    /// policy used when no route exists: a random free neighbor rather
    /// than the most open one.
    pub fn new(random_dir: bool, width: usize, height: usize) -> (r: Self)
        requires
            dims_ok(width, height),
        ensures
            r.wf(),
            r.width == width,
            r.height == height,
            r.random_dir == random_dir,
            !r.found(),
            r.path@.len() == 0,
            r.path_index == 0,
    {
        AStar { path: Vec::new(), path_index: 0, end: None, random_dir, width, height }
    }

    /// Drop any route and cursor, returning to the state of a fresh
    /// planner with the same grid and policy.
    pub fn reset(&mut self)
        requires
            old(self).wf(),
        ensures
            final(self).wf(),
            final(self).width == old(self).width,
            final(self).height == old(self).height,
            final(self).random_dir == old(self).random_dir,
            !final(self).found(),
            final(self).path@.len() == 0,
            final(self).path_index == 0,
    {
        self.path = Vec::new();
        self.path_index = 0;
        self.end = None;
    }

    /// Whether the last search produced a route.
    pub fn path_found(&self) -> (r: bool)
        ensures
            r == self.found(),
    {
        match self.end {
            Some(_) => true,
            None => false,
        }
    }

    /// The next direction of the current route.
    pub fn get_next_move(&self) -> (r: Direction)
        requires
            self.path_index < self.path@.len(),
        ensures
            r == self.path@[self.path_index as int],
    {
        self.path[self.path_index]
    }

    /// Manhattan distance to the goal: the classic admissible estimate.
    fn calculate_h_value(&self, end: &Pos, x: usize, y: usize) -> (r: usize)
        requires
            dims_ok(self.width, self.height),
            pos_in_bounds(Pos { x, y }, self.width, self.height),
            pos_in_bounds(*end, self.width, self.height),
        ensures
            r == crate::grid::manhattan(Pos { x, y }, *end),
    {
        let dx = if x >= end.x {
            x - end.x
        } else {
            end.x - x
        };
        let dy = if y >= end.y {
            y - end.y
        } else {
            end.y - y
        };
        dx + dy
    }

    /// Plan a route from `start` to `end` around `obstacles`.
    ///
    /// Afterward a route is in hand exactly when the two cells differ and
    /// some collision-free walk connects them; the route in hand is
    /// collision-free and no shorter route exists. When `start` and `end`
    /// coincide no route is needed and none is produced.
    #[verifier::rlimit(100)]
    pub fn shortest_path(&mut self, start: &Pos, end: &Pos, obstacles: &Vec<Pos>)
        requires
            old(self).wf(),
            pos_in_bounds(*start, old(self).width, old(self).height),
        ensures
            final(self).wf(),
            final(self).width == old(self).width && final(self).height == old(self).height
                && final(self).random_dir == old(self).random_dir,
            final(self).path_index == 0,
            final(self).found() <==> (*start != *end && can_reach_goal(
                *start,
                *end,
                obstacles@,
                old(self).width,
                old(self).height,
            )),
            final(self).found() ==> final(self).end == Some(*end),
            final(self).found() ==> path_ok(
                *start,
                *end,
                obstacles@,
                old(self).width,
                old(self).height,
                final(self).path@,
            ),
            final(self).found() ==> goal_reach_n(
                *start,
                *end,
                obstacles@,
                old(self).width,
                old(self).height,
                final(self).path@.len() as nat,
            ) && (forall|n: nat|
                n < final(self).path@.len() ==> !goal_reach_n(
                    *start,
                    *end,
                    obstacles@,
                    old(self).width,
                    old(self).height,
                    n,
                )),
            !final(self).found() ==> final(self).path@.len() == 0,
    {
        let w = self.width;
        let h = self.height;
        let ghost obs = obstacles@;
        let ghost av = avoid_seq(obs, *end);
        proof {
            lemma_push_contains(obs, *end);
            assert(1 <= w * h <= 46340 * 46340) by (nonlinear_arith)
                requires
                    1 <= w <= 46340,
                    1 <= h <= 46340,
            ;
        }
        self.path = Vec::new();
        self.path_index = 0;
        self.end = None;
        if start.x == end.x && start.y == end.y {
            return ;
        }
        assert(*start != *end);
        if !in_bounds(end.x, end.y, w, h) {
            proof {
                assert forall|n: nat| !goal_reach_n(*start, *end, obs, w, h, n) by {
                    assert(!pos_in_bounds(*end, w, h));
                }
            }
            return ;
        }

        // the arena: one undiscovered record per cell
        let n_cells = w * h;
        let blank = Node { parent: None, g: usize::MAX, h: usize::MAX, f: usize::MAX };
        let mut nodes: Vec<Node> = Vec::new();
        let mut ci: usize = 0;
        while ci < n_cells
            invariant
                n_cells == w * h,
                ci <= n_cells,
                nodes@.len() == ci,
                forall|t: int| 0 <= t < ci ==> nodes@[t] == blank,
                blank.g == usize::MAX && blank.parent is None,
            decreases n_cells - ci,
        {
            nodes.push(blank);
            ci += 1;
        }
        let si = idx_of(*start, w, h);
        nodes.set(si, Node { parent: None, g: 0, h: 0, f: 0 });
        proof {
            assert forall|p: Pos| pos_in_bounds(p, w, h) && p != *start implies !disc(
                nodes@,
                w,
                p,
            ) by {
                lemma_cell_index_injective(p, *start, w, h);
                lemma_cell_index_bounds(p, w, h);
            }
            assert(disc(nodes@, w, *start) && node_of(nodes@, w, *start).g == 0);
        }
        let mut open: Vec<Pos> = Vec::new();
        open.push(*start);
        let mut qi: usize = 0;
        let mut found_from: Option<Pos> = None;
        proof {
            assert(open@[0] == *start);
            lemma_init(*start, *end, obs, w, h, nodes@, open@);
        }
        while found_from.is_none() && qi < open.len()
            invariant
                n_cells == w * h,
                dims_ok(w, h),
                self.width == w,
                self.height == h,
                pos_in_bounds(*end, w, h),
                nodes@.len() == n_cells,
                qi <= open@.len(),
                base_inv(*start, *end, obs, w, h, nodes@, open@, qi as int),
                min_inv(*start, *end, obs, w, h, nodes@, open@, qi as int),
                found_from is None ==> unfound_inv(*end, w, h, open@, qi as int),
                found_from matches Some(c) ==> found_facts(*start, *end, obs, w, h, nodes@, c),
                av == avoid_seq(obs, *end),
                obs == obstacles@,
            decreases 2 * (w * h - qi) + (if found_from is None {
                1int
            } else {
                0int
            }),
        {
            let cur = open[qi];
            proof {
                lemma_entry_facts(*start, *end, obs, w, h, nodes@, open@, qi as int);
            }
            let cg = nodes[idx_of(cur, w, h)].g;
            let neighbors = cur.get_neighbors(w, h);
            let ghost entry_open = open@;
            let mut j: usize = 0;
            while found_from.is_none() && j < neighbors.len()
                invariant
                    n_cells == w * h,
                    dims_ok(w, h),
                    self.width == w,
                    self.height == h,
                    pos_in_bounds(*end, w, h),
                    nodes@.len() == n_cells,
                    qi < open@.len(),
                    open@[qi as int] == cur,
                    base_inv(*start, *end, obs, w, h, nodes@, open@, qi as int),
                    min_inv(*start, *end, obs, w, h, nodes@, open@, qi as int),
                    found_from is None ==> unfound_inv(*end, w, h, open@, qi as int),
                    found_from matches Some(c) ==> found_facts(*start, *end, obs, w, h, nodes@, c),
                    av == avoid_seq(obs, *end),
                    obs == obstacles@,
                    j <= neighbors@.len(),
                    neighbors@ == neighbor_seq(cur, w, h),
                    disc(nodes@, w, cur) && node_of(nodes@, w, cur).g == cg,
                    cg <= qi,
                    forall|i: int| 0 <= i < entry_open.len() ==> open@[i] == entry_open[i],
                    entry_open.len() <= open@.len(),
                    forall|t: int|
                        0 <= t < neighbors@.len() ==> pos_in_bounds(
                            #[trigger] neighbors@[t],
                            w,
                            h,
                        ) && is_adjacent(cur, neighbors@[t]),
                    found_from is None ==> forall|t: int| 0 <= t < j ==> neighbors@[t] != *end,
                    found_from is None ==> forall|t: int|
                        0 <= t < j && free_cell(#[trigger] neighbors@[t], av, w, h) ==> disc(
                            nodes@,
                            w,
                            neighbors@[t],
                        ) && node_of(nodes@, w, neighbors@[t]).g <= cg + 1,
                decreases neighbors@.len() - j,
            {
                let q = neighbors[j];
                if q.x == end.x && q.y == end.y {
                    proof {
                        lemma_at_found(*start, *end, obs, w, h, nodes@, open@, qi as int);
                    }
                    found_from = Some(cur);
                } else if nodes[idx_of(q, w, h)].g == usize::MAX && !contains_pos(obstacles, q) {
                    proof {
                        lemma_push_contains(obs, *end);
                        assert(!disc(nodes@, w, q));
                        assert(q != *end);
                        assert(free_cell(q, av, w, h));
                        lemma_entry_facts(*start, *end, obs, w, h, nodes@, open@, qi as int);
                        assert(cg + 1 <= open@.len() <= w * h);
                        assert(w * h + w + h <= usize::MAX) by (nonlinear_arith)
                            requires
                                1 <= w <= 46340,
                                1 <= h <= 46340,
                        ;
                        assert(crate::grid::manhattan(q, *end) <= w + h);
                    }
                    let hv = self.calculate_h_value(end, q.x, q.y);
                    let nd = Node { parent: Some(cur), g: cg + 1, h: hv, f: cg + 1 + hv };
                    let qdx = idx_of(q, w, h);
                    let ghost before_nodes = nodes@;
                    let ghost before_open = open@;
                    proof {
                        lemma_push_step(*start, *end, obs, w, h, nodes@, open@, qi as int, q, nd);
                        lemma_push_min(*start, *end, obs, w, h, nodes@, open@, qi as int, q, nd);
                    }
                    nodes.set(qdx, nd);
                    open.push(q);
                    proof {
                        lemma_node_frame(before_nodes, w, h, q, nd);
                        assert(node_of(nodes@, w, q) == nd);
                        assert(forall|i: int|
                            0 <= i < before_open.len() ==> open@[i] == before_open[i]);
                        assert forall|t: int|
                            0 <= t < j + 1 && free_cell(#[trigger] neighbors@[t], av, w, h)
                            implies disc(nodes@, w, neighbors@[t]) && node_of(
                            nodes@,
                            w,
                            neighbors@[t],
                        ).g <= cg + 1 by {
                            if neighbors@[t] != q {
                                assert(node_of(nodes@, w, neighbors@[t]) == node_of(
                                    before_nodes,
                                    w,
                                    neighbors@[t],
                                ));
                                assert(t < j);
                            }
                        }
                    }
                } else {
                    proof {
                        if disc(nodes@, w, q) {
                            lemma_disc_g_bound(
                                *start,
                                *end,
                                obs,
                                w,
                                h,
                                nodes@,
                                open@,
                                qi as int,
                                q,
                            );
                        } else {
                            assert(obstacles@.contains(q));
                            lemma_push_contains(obs, *end);
                            assert(!free_cell(q, av, w, h));
                        }
                    }
                }
                j += 1;
            }
            if found_from.is_none() {
                proof {
                    lemma_close_cur(*start, *end, obs, w, h, nodes@, open@, qi as int);
                }
                qi += 1;
            }
        }

        match found_from {
            None => {
                proof {
                    assert(qi == open@.len());
                    lemma_no_route(*start, *end, obs, w, h, nodes@, open@);
                }
            },
            Some(cfrom) => {
                let path = reconstruct_route(
                    start,
                    end,
                    &nodes,
                    cfrom,
                    w,
                    h,
                    Ghost(obs),
                    Ghost(open@),
                    Ghost(qi as int),
                );
                proof {
                    lemma_disc_facts(*start, *end, obs, w, h, nodes@, open@, qi as int, cfrom);
                    let ln = path@.len();
                    assert(reach_n(
                        *start,
                        av,
                        w,
                        h,
                        cfrom,
                        node_of(nodes@, w, cfrom).g as nat,
                    ));
                    assert((ln - 1) as nat == node_of(nodes@, w, cfrom).g as nat);
                    assert(goal_reach_n(*start, *end, obs, w, h, ln as nat));
                }
                self.path = path;
                self.end = Some(*end);
                self.path_index = 0;
            },
        }
    }

    /// One tick of the route-following policy: follow the current route
    /// when one is in hand; otherwise, if the agent is about to collide,
    /// fall back to a survival move (random or most-open, per
    /// `random_dir`). Then move the agent, and re-plan when the goal was
    /// consumed or, still without a route, on the re-planning cadence.
    pub fn update(
        &mut self,
        snake: &mut Snake,
        food: &mut Food,
        frame_count: &usize,
        score: &mut i32,
    )
        requires
            old(self).wf(),
            old(snake).wf(),
            old(snake).width == old(self).width,
            old(snake).height == old(self).height,
            old(self).found() ==> old(self).path_index < old(self).path@.len(),
            *old(score) < i32::MAX,
        ensures
            final(self).wf(),
            final(self).width == old(self).width && final(self).height == old(self).height
                && final(self).random_dir == old(self).random_dir,
            final(snake).wf(),
            final(snake).width == old(snake).width && final(snake).height == old(snake).height,
            exists|s1: Snake|
                #[trigger] command_rel(*old(self), *old(snake), s1) && crate::snake::update_rel(
                    s1,
                    *final(snake),
                    *old(food),
                    *final(food),
                    *old(score),
                    *final(score),
                ),
            ({
                let replanned = *final(score) != *old(score) || (!old(self).found()
                    && *frame_count % SEARCH_EVERY == 0);
                &&& (replanned ==> search_post(
                    *final(self),
                    final(snake).head_spec(),
                    final(food).pos,
                    final(snake).tail(),
                ))
                &&& (!replanned ==> final(self).end == old(self).end && final(self).path == old(
                    self,
                ).path && final(self).path_index == (if old(self).found() {
                    old(self).path_index + 1
                } else {
                    old(self).path_index as int
                }))
            }),
    {
        let score_before = *score;
        let path_found = self.path_found();

        if path_found {
            let d = self.get_next_move();
            snake.set_next_direction(d);
            proof {
                assert(*snake == with_next(*old(snake), d));
            }
            let plen = self.path.len();
            proof {
                assert(self.path_index < plen);
            }
            self.path_index += 1;
        } else if snake.would_collide() {
            if self.random_dir {
                let dir = snake.get_random_free_dir();
                snake.set_next_direction(dir);
                proof {
                    assert(random_dir_ok(*old(snake), dir));
                    assert(*snake == with_next(*old(snake), dir));
                }
            } else {
                let dir = snake.get_dir_of_free_space();
                snake.set_next_direction(dir);
                proof {
                    assert(space_dir_ok(*old(snake), dir));
                    assert(*snake == with_next(*old(snake), dir));
                }
            }
        }
        let ghost s1 = *snake;
        proof {
            assert(command_rel(*old(self), *old(snake), s1));
        }
        snake.update(food, score);

        if score_before != *score || (!path_found && *frame_count % SEARCH_EVERY == 0) {
            self.search(&snake, &food);
            self.path_index = 0;
        }
    }

    /// Plan a route from the agent's head to the goal, around the
    /// agent's body.
    pub fn search(&mut self, snake: &Snake, food: &Food)
        requires
            old(self).wf(),
            snake.wf(),
            snake.width == old(self).width,
            snake.height == old(self).height,
        ensures
            final(self).wf(),
            final(self).width == old(self).width && final(self).height == old(self).height
                && final(self).random_dir == old(self).random_dir,
            search_post(*final(self), snake.head_spec(), food.pos, snake.tail()),
    {
        let head = snake.head();
        let obstacles = snake.exclude_head();
        self.shortest_path(&head, &food.pos, &obstacles)
    }
}

} // verus!
