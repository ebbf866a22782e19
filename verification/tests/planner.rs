use snake_nav::astar::AStar;
use snake_nav::grid::{Direction, Pos};
use snake_nav::snake::{Food, Snake};

/// Walk `path` from `start`, checking every step stays on the grid,
/// and return the visited cells (start excluded).
fn walk(start: Pos, path: &Vec<Direction>, w: usize, h: usize) -> Vec<Pos> {
    let mut cells = Vec::new();
    let mut cur = start;
    for d in path.iter() {
        cur = cur.adjacent(d, w, h).expect("route left the grid");
        cells.push(cur);
    }
    cells
}

#[test]
fn empty_5x5_diagonal_is_manhattan_optimal() {
    let mut a = AStar::new(false, 5, 5);
    a.shortest_path(&Pos::new(0, 0), &Pos::new(4, 4), &Vec::new());
    assert!(a.path_found());
    assert_eq!(a.path.len(), 8);
    let cells = walk(Pos::new(0, 0), &a.path, 5, 5);
    assert_eq!(cells[cells.len() - 1], Pos::new(4, 4));
}

#[test]
fn enclosed_goal_is_unreachable() {
    let obstacles = vec![Pos::new(0, 1), Pos::new(2, 1), Pos::new(1, 0), Pos::new(1, 2)];
    let mut a = AStar::new(false, 3, 3);
    a.shortest_path(&Pos::new(0, 0), &Pos::new(1, 1), &obstacles);
    assert!(!a.path_found());
    assert_eq!(a.path.len(), 0);
}

#[test]
fn route_avoids_obstacles_and_ends_on_goal() {
    // a wall with one gap forces a detour
    let obstacles = vec![Pos::new(2, 0), Pos::new(2, 1), Pos::new(2, 2), Pos::new(2, 3)];
    let start = Pos::new(0, 2);
    let goal = Pos::new(4, 2);
    let mut a = AStar::new(false, 5, 5);
    a.shortest_path(&start, &goal, &obstacles);
    assert!(a.path_found());
    let cells = walk(start, &a.path, 5, 5);
    for c in cells.iter().take(cells.len() - 1) {
        assert!(!obstacles.contains(c));
    }
    assert_eq!(cells[cells.len() - 1], goal);
    // the gap is at (2, 4): shortest detour is 4 + 2 + 2 = 8 steps
    assert_eq!(a.path.len(), 8);
}

#[test]
fn adjacent_goal_takes_one_step() {
    let mut a = AStar::new(false, 4, 4);
    a.shortest_path(&Pos::new(1, 1), &Pos::new(1, 2), &Vec::new());
    assert!(a.path_found());
    assert_eq!(a.path.len(), 1);
    assert_eq!(a.path[0], Direction::Down);
}

#[test]
fn start_equals_goal_needs_no_route() {
    let mut a = AStar::new(false, 4, 4);
    a.shortest_path(&Pos::new(2, 2), &Pos::new(2, 2), &Vec::new());
    assert!(!a.path_found());
    assert_eq!(a.path.len(), 0);
}

#[test]
fn goal_off_the_grid_is_unreachable() {
    let mut a = AStar::new(false, 4, 4);
    a.shortest_path(&Pos::new(0, 0), &Pos::new(4, 4), &Vec::new());
    assert!(!a.path_found());
}

#[test]
fn reset_planner_plans_like_a_fresh_one() {
    let start = Pos::new(0, 0);
    let goal = Pos::new(3, 2);
    let obstacles = vec![Pos::new(1, 0), Pos::new(1, 1)];
    let mut fresh = AStar::new(false, 5, 5);
    fresh.shortest_path(&start, &goal, &obstacles);

    let mut reused = AStar::new(false, 5, 5);
    reused.shortest_path(&Pos::new(4, 4), &Pos::new(0, 4), &Vec::new());
    reused.reset();
    reused.shortest_path(&start, &goal, &obstacles);

    assert_eq!(fresh.path_found(), reused.path_found());
    assert_eq!(fresh.path, reused.path);
    assert_eq!(fresh.path[0], reused.path[0]);
}

#[test]
fn blocked_and_walled_start_finds_no_route() {
    // start boxed in by its own corner and two obstacles
    let obstacles = vec![Pos::new(1, 0), Pos::new(0, 1)];
    let mut a = AStar::new(false, 5, 5);
    a.shortest_path(&Pos::new(0, 0), &Pos::new(4, 4), &obstacles);
    assert!(!a.path_found());
}

#[test]
fn controller_follows_its_route_to_the_goal() {
    let mut snake = Snake::new(5, 5);
    let mut food = Food { pos: Pos::new(4, 0) };
    let mut score: i32 = 0;
    let mut a = AStar::new(false, 5, 5);
    a.search(&snake, &food);
    assert!(a.path_found());
    assert_eq!(a.path.len(), 2);
    let frames: usize = 0;
    a.update(&mut snake, &mut food, &frames, &mut score);
    assert_eq!(snake.head(), Pos::new(3, 0));
    a.update(&mut snake, &mut food, &frames, &mut score);
    assert_eq!(snake.head(), Pos::new(4, 0));
    assert_eq!(score, 1);
    // eating the goal triggers a re-plan toward the new goal
    assert_eq!(a.path_index, 0);
}

#[test]
fn controller_replans_on_the_cadence_when_stuck() {
    // goal sealed off: no route, agent not about to collide
    let mut snake = Snake::new(5, 5);
    let obstacle_goal = Pos::new(0, 4);
    let mut food = Food { pos: obstacle_goal };
    // wall the goal in by hand
    snake.body = vec![
        Pos::new(2, 2),
        Pos::new(1, 2),
        Pos::new(0, 2),
        Pos::new(1, 4),
        Pos::new(1, 3),
        Pos::new(0, 3),
    ];
    let mut a = AStar::new(false, 5, 5);
    a.search(&snake, &food);
    assert!(!a.path_found());
    let mut score: i32 = 0;
    let frames: usize = 3;
    // not on the cadence: no plan appears
    a.update(&mut snake, &mut food, &frames, &mut score);
    assert!(!a.path_found());
}
