use snake_nav::flood::reachable_count;
use snake_nav::grid::Pos;
use snake_nav::ham_cycle::HamiltonianCycle;
use snake_nav::snake::Snake;

#[test]
fn open_grid_is_one_region() {
    assert_eq!(reachable_count(Pos::new(1, 1), &Vec::new(), 3, 3), 9);
    assert_eq!(reachable_count(Pos::new(0, 0), &Vec::new(), 5, 5), 25);
    assert_eq!(reachable_count(Pos::new(0, 0), &Vec::new(), 1, 1), 1);
}

#[test]
fn blocked_or_outside_origin_counts_zero() {
    let obstacles = vec![Pos::new(1, 1)];
    assert_eq!(reachable_count(Pos::new(1, 1), &obstacles, 3, 3), 0);
    assert_eq!(reachable_count(Pos::new(3, 0), &Vec::new(), 3, 3), 0);
    assert_eq!(reachable_count(Pos::new(0, 7), &Vec::new(), 3, 3), 0);
}

#[test]
fn wall_splits_the_grid_into_two_regions() {
    // a full wall down column 1 of a 3x3 grid
    let obstacles = vec![Pos::new(1, 0), Pos::new(1, 1), Pos::new(1, 2)];
    assert_eq!(reachable_count(Pos::new(0, 0), &obstacles, 3, 3), 3);
    assert_eq!(reachable_count(Pos::new(2, 2), &obstacles, 3, 3), 3);
}

#[test]
fn gap_in_the_wall_joins_the_regions() {
    let obstacles = vec![Pos::new(1, 0), Pos::new(1, 1)];
    assert_eq!(reachable_count(Pos::new(0, 0), &obstacles, 3, 3), 7);
}

#[test]
fn tour_visits_every_cell_once_and_closes() {
    let snake = Snake::new(4, 4);
    let mut hc = HamiltonianCycle::new(4, 4);
    hc.generate(&snake);
    assert_eq!(hc.path.len(), 16);

    let mut cur = Pos::new(0, 0);
    let mut seen = vec![cur];
    for d in hc.path.iter().take(15) {
        cur = cur.adjacent(d, 4, 4).expect("tour left the grid");
        assert!(!seen.contains(&cur), "tour revisited a cell");
        seen.push(cur);
    }
    assert_eq!(seen.len(), 16);
    // the last direction closes the cycle
    let back = cur.adjacent(&hc.path[15], 4, 4).expect("tour left the grid");
    assert_eq!(back, Pos::new(0, 0));
}

#[test]
fn wide_tour_covers_a_6x4_grid() {
    let snake = Snake::new(6, 4);
    let mut hc = HamiltonianCycle::new(6, 4);
    hc.generate(&snake);
    assert_eq!(hc.path.len(), 24);
    let mut cur = Pos::new(0, 0);
    let mut seen = vec![cur];
    for d in hc.path.iter().take(23) {
        cur = cur.adjacent(d, 6, 4).expect("tour left the grid");
        assert!(!seen.contains(&cur));
        seen.push(cur);
    }
    assert_eq!(seen.len(), 24);
    assert_eq!(cur.adjacent(&hc.path[23], 6, 4), Some(Pos::new(0, 0)));
}

#[test]
fn cycle_cursor_reset_matches_fresh_generation() {
    let snake = Snake::new(4, 4);
    let mut fresh = HamiltonianCycle::new(4, 4);
    fresh.generate(&snake);
    let first = fresh.path[fresh.path_index];

    let mut reused = HamiltonianCycle::new(4, 4);
    reused.generate(&snake);
    reused.path_index = 7;
    reused.reset(&snake);
    assert_eq!(reused.path_index, fresh.path_index);
    assert_eq!(reused.path[reused.path_index], first);
}

#[test]
fn agent_survives_a_full_lap_of_the_cycle() {
    let mut snake = Snake::new(4, 4);
    let mut hc = HamiltonianCycle::new(4, 4);
    hc.generate(&snake);
    // park the goal where the agent starts so it is eaten immediately and
    // the board keeps changing
    let mut food = snake_nav::snake::Food::new(4, 4);
    let mut score: i32 = 0;
    for _ in 0..32 {
        hc.update(&mut snake, &mut food, &mut score);
        assert!(!snake.game_over, "the cycle never collides");
    }
}
