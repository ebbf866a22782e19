use snake_nav::grid::{Direction, Pos, in_bounds, in_bounds_i32};
use snake_nav::snake::{Food, Snake, START_LEN};

#[test]
fn bounds_checks() {
    assert!(in_bounds(0, 0, 3, 3));
    assert!(in_bounds(2, 2, 3, 3));
    assert!(!in_bounds(3, 2, 3, 3));
    assert!(!in_bounds(2, 3, 3, 3));
    assert!(in_bounds_i32(0, 0, 3, 3));
    assert!(!in_bounds_i32(-1, 0, 3, 3));
    assert!(!in_bounds_i32(0, -1, 3, 3));
    assert!(!in_bounds_i32(3, 0, 3, 3));
}

#[test]
fn neighbors_of_corner_and_center() {
    let corner = Pos::new(0, 0).get_neighbors(3, 3);
    assert_eq!(corner, vec![Pos::new(1, 0), Pos::new(0, 1)]);
    let center = Pos::new(1, 1).get_neighbors(3, 3);
    assert_eq!(
        center,
        vec![Pos::new(2, 1), Pos::new(0, 1), Pos::new(1, 2), Pos::new(1, 0)]
    );
}

#[test]
fn adjacent_respects_edges() {
    assert_eq!(Pos::new(0, 0).adjacent(&Direction::Left, 3, 3), None);
    assert_eq!(Pos::new(0, 0).adjacent(&Direction::Up, 3, 3), None);
    assert_eq!(Pos::new(0, 0).adjacent(&Direction::Right, 3, 3), Some(Pos::new(1, 0)));
    assert_eq!(Pos::new(0, 0).adjacent(&Direction::Down, 3, 3), Some(Pos::new(0, 1)));
    assert_eq!(Pos::new(2, 2).adjacent(&Direction::Right, 3, 3), None);
    assert_eq!(Pos::new(2, 2).adjacent(&Direction::Down, 3, 3), None);
}

#[test]
fn direction_between_cells() {
    let a = Pos::new(1, 1);
    assert_eq!(a.get_dir_to(&Pos::new(2, 1)), Some(Direction::Right));
    assert_eq!(a.get_dir_to(&Pos::new(0, 1)), Some(Direction::Left));
    assert_eq!(a.get_dir_to(&Pos::new(1, 0)), Some(Direction::Up));
    assert_eq!(a.get_dir_to(&Pos::new(1, 2)), Some(Direction::Down));
    assert_eq!(a.get_dir_to(&Pos::new(1, 1)), None);
    assert_eq!(a.get_dir_to(&Pos::new(2, 2)), None);
    assert_eq!(a.get_dir_to(&Pos::new(3, 1)), None);
}

#[test]
fn opposite_is_an_involution() {
    for d in [Direction::Up, Direction::Down, Direction::Left, Direction::Right] {
        assert_eq!(d.opposite().opposite(), d);
    }
    assert_eq!(Direction::Up.opposite(), Direction::Down);
    assert_eq!(Direction::Left.opposite(), Direction::Right);
}

#[test]
fn fresh_agent_layout() {
    let s = Snake::new(5, 5);
    assert_eq!(s.len(), START_LEN);
    assert_eq!(s.head(), Pos::new(2, 0));
    assert_eq!(s.body, vec![Pos::new(2, 0), Pos::new(1, 0), Pos::new(0, 0)]);
    assert_eq!(s.exclude_head(), vec![Pos::new(1, 0), Pos::new(0, 0)]);
    assert!(!s.game_ended());
}

#[test]
fn agent_moves_and_slides() {
    let mut s = Snake::new(5, 5);
    let mut food = Food { pos: Pos::new(4, 4) };
    let mut score: i32 = 0;
    s.update(&mut food, &mut score);
    assert_eq!(s.head(), Pos::new(3, 0));
    assert_eq!(s.body, vec![Pos::new(3, 0), Pos::new(2, 0), Pos::new(1, 0)]);
    assert_eq!(score, 0);
    assert!(!s.game_over);
}

#[test]
fn agent_grows_and_scores_on_the_goal() {
    let mut s = Snake::new(5, 5);
    let mut food = Food { pos: Pos::new(3, 0) };
    let mut score: i32 = 0;
    s.update(&mut food, &mut score);
    assert_eq!(score, 1);
    assert_eq!(s.len(), START_LEN + 1);
    assert_eq!(s.head(), Pos::new(3, 0));
    // the goal moved off the body
    assert!(!s.body.contains(&food.pos));
}

#[test]
fn agent_dies_on_the_wall() {
    let mut s = Snake::new(5, 5);
    s.set_next_direction(Direction::Up);
    let mut food = Food { pos: Pos::new(4, 4) };
    let mut score: i32 = 0;
    s.update(&mut food, &mut score);
    assert!(s.game_over);
    // the body did not move
    assert_eq!(s.head(), Pos::new(2, 0));
}

#[test]
fn collision_ahead_is_detected() {
    let mut s = Snake::new(5, 5);
    assert!(!s.would_collide());
    s.direction = Direction::Up;
    // the head sits on the top row: up leaves the grid
    assert!(s.would_collide());
    s.direction = Direction::Left;
    // left runs into the neck
    assert!(s.would_collide());
}

#[test]
fn reversal_commands_are_ignored() {
    let mut s = Snake::new(5, 5);
    s.set_next_direction(Direction::Left);
    let mut food = Food { pos: Pos::new(4, 4) };
    let mut score: i32 = 0;
    s.update(&mut food, &mut score);
    // still moving right: left would reverse into the neck
    assert_eq!(s.head(), Pos::new(3, 0));
}

#[test]
fn reset_restores_the_start_state() {
    let mut s = Snake::new(5, 5);
    let mut food = Food { pos: Pos::new(4, 4) };
    let mut score: i32 = 0;
    s.update(&mut food, &mut score);
    s.update(&mut food, &mut score);
    s.reset();
    let fresh = Snake::new(5, 5);
    assert_eq!(s.body, fresh.body);
    assert!(!s.game_over && !s.game_win);
}

#[test]
fn open_space_is_measured_per_neighbor() {
    // the body walls off column 1 of a 3x3 grid, head on the left side
    let s = Snake {
        body: vec![
            Pos::new(0, 1),
            Pos::new(1, 0),
            Pos::new(1, 1),
            Pos::new(1, 2),
        ],
        direction: Direction::Left,
        next_direction: Direction::Left,
        game_over: false,
        game_win: false,
        width: 3,
        height: 3,
    };
    // left of the wall: three cells (the head's own cell is open ground)
    assert_eq!(s.get_space(&Pos::new(0, 0)), 3);
    assert_eq!(s.get_space(&Pos::new(0, 2)), 3);
    // right of the wall: three cells
    assert_eq!(s.get_space(&Pos::new(2, 1)), 3);
    // a body cell opens nothing
    assert_eq!(s.get_space(&Pos::new(1, 0)), 0);
}

#[test]
fn most_open_fallback_breaks_ties_in_enumeration_order() {
    let mut s = Snake {
        body: vec![
            Pos::new(0, 1),
            Pos::new(1, 0),
            Pos::new(1, 1),
            Pos::new(1, 2),
        ],
        direction: Direction::Left,
        next_direction: Direction::Left,
        game_over: false,
        game_win: false,
        width: 3,
        height: 3,
    };
    // both free neighbors open the same three cells; the fixed order
    // (right, left, down, up) settles on down
    assert_eq!(s.get_dir_of_free_space(), Direction::Down);
}

#[test]
fn most_open_fallback_takes_a_single_exit() {
    let mut s = Snake {
        body: vec![Pos::new(0, 0), Pos::new(1, 0), Pos::new(1, 1)],
        direction: Direction::Left,
        next_direction: Direction::Left,
        game_over: false,
        game_win: false,
        width: 4,
        height: 4,
    };
    assert_eq!(s.get_dir_of_free_space(), Direction::Down);
}

#[test]
fn random_fallback_stays_on_free_cells() {
    for _ in 0..20 {
        let mut s = Snake::new(5, 5);
        let d = s.get_random_free_dir();
        // the head at (2,0) has free neighbors right, down (left is body,
        // up is the wall)
        assert!(d == Direction::Right || d == Direction::Down);
    }
}

#[test]
fn random_fallback_with_single_exit_takes_it() {
    // head boxed in except below
    let mut s = Snake {
        body: vec![
            Pos::new(0, 0),
            Pos::new(1, 0),
            Pos::new(1, 1),
        ],
        direction: Direction::Left,
        next_direction: Direction::Left,
        game_over: false,
        game_win: false,
        width: 4,
        height: 4,
    };
    for _ in 0..10 {
        assert_eq!(s.get_random_free_dir(), Direction::Down);
    }
}

#[test]
fn goal_spawns_on_the_grid() {
    for _ in 0..20 {
        let f = Food::new(6, 4);
        assert!(f.pos.x < 6 && f.pos.y < 4);
    }
}

#[test]
fn goal_respawns_on_the_only_free_cell() {
    // a 2x2 grid with three cells occupied: respawn must find the fourth
    let s = Snake {
        body: vec![Pos::new(0, 0), Pos::new(1, 0), Pos::new(0, 1)],
        direction: Direction::Right,
        next_direction: Direction::Right,
        game_over: false,
        game_win: false,
        width: 2,
        height: 2,
    };
    for _ in 0..10 {
        let mut f = Food { pos: Pos::new(0, 0) };
        let won = f.respawn(&s);
        assert!(!won);
        assert_eq!(f.pos, Pos::new(1, 1));
    }
}

#[test]
fn full_board_respawn_reports_the_win() {
    let s = Snake {
        body: vec![Pos::new(0, 0), Pos::new(1, 0), Pos::new(0, 1), Pos::new(1, 1)],
        direction: Direction::Right,
        next_direction: Direction::Right,
        game_over: false,
        game_win: false,
        width: 2,
        height: 2,
    };
    let mut f = Food { pos: Pos::new(0, 0) };
    assert!(f.respawn(&s));
    assert_eq!(f.pos, Pos::new(0, 0));
}
