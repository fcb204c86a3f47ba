use snake_game::{next_cell_index, Direction, GameStatus, SnakeCell, World};

fn cells(world: &World) -> Vec<usize> {
    world.snake_cells().iter().map(|c: &SnakeCell| c.0).collect()
}

fn direction_between(width: usize, from: usize, to: usize) -> Direction {
    for d in [Direction::Up, Direction::Right, Direction::Down, Direction::Left] {
        if next_cell_index(width, from, d) == to {
            return d;
        }
    }
    panic!("cells {} and {} are not neighbours", from, to);
}

/// A width-4 snake that eats twice along row 0 and then runs into itself.
fn lost_world() -> World {
    let mut w = World::new(4, 2);
    assert!(w.offer_reward_cell(3));
    w.start_game();
    w.step();
    assert_eq!(cells(&w), vec![3, 2, 1, 1]);
    assert!(w.offer_reward_cell(0));
    w.step();
    assert_eq!(cells(&w), vec![0, 3, 2, 1, 1]);
    w.step();
    w
}

#[test]
fn next_cell_stays_on_board() {
    for width in 1..7usize {
        for index in 0..width * width {
            for d in [Direction::Up, Direction::Right, Direction::Down, Direction::Left] {
                assert!(next_cell_index(width, index, d) < width * width);
            }
        }
    }
}

#[test]
fn next_cell_inside_the_board() {
    assert_eq!(next_cell_index(4, 5, Direction::Right), 6);
    assert_eq!(next_cell_index(4, 5, Direction::Left), 4);
    assert_eq!(next_cell_index(4, 5, Direction::Up), 1);
    assert_eq!(next_cell_index(4, 5, Direction::Down), 9);
}

#[test]
fn edges_wrap_around() {
    assert_eq!(next_cell_index(4, 7, Direction::Right), 4);
    assert_eq!(next_cell_index(4, 4, Direction::Left), 7);
    assert_eq!(next_cell_index(4, 2, Direction::Up), 14);
    assert_eq!(next_cell_index(4, 14, Direction::Down), 2);
    assert_eq!(next_cell_index(4, 15, Direction::Right), 12);
    assert_eq!(next_cell_index(4, 0, Direction::Up), 12);
    assert_eq!(next_cell_index(1, 0, Direction::Down), 0);
}

#[test]
fn new_world_starts_idle() {
    let w = World::new(8, 10);
    assert_eq!(w.width(), 8);
    assert_eq!(w.points(), 0);
    assert_eq!(w.reward_cell(), None);
    assert_eq!(w.snake_head_idx(), 10);
    assert_eq!(w.snake_length(), 3);
    assert_eq!(cells(&w), vec![10, 9, 8]);
    assert!(w.game_status().is_none());
    assert_eq!(w.game_status_text(), "No Status");
    assert!(w.needs_reward());
}

#[test]
fn step_before_start_does_nothing() {
    let mut w = World::new(8, 10);
    w.step();
    assert_eq!(cells(&w), vec![10, 9, 8]);
    assert!(w.game_status().is_none());
}

#[test]
fn first_step_moves_right() {
    let mut w = World::new(8, 10);
    w.start_game();
    w.step();
    assert_eq!(w.snake_head_idx(), 11);
    assert_eq!(cells(&w), vec![11, 10, 9]);
    assert_eq!(w.game_status(), Some(GameStatus::Played));
    assert_eq!(w.game_status_text(), "Playing");
}

#[test]
fn reversal_is_ignored() {
    let mut w = World::new(8, 10);
    w.start_game();
    w.change_snake_dir(Direction::Left);
    w.step();
    assert_eq!(cells(&w), vec![11, 10, 9]);
    w.change_snake_dir(Direction::Left);
    w.step();
    assert_eq!(cells(&w), vec![12, 11, 10]);
}

#[test]
fn turn_takes_effect_on_next_step() {
    let mut w = World::new(8, 10);
    w.start_game();
    w.change_snake_dir(Direction::Up);
    assert_eq!(w.snake_head_idx(), 10);
    w.step();
    assert_eq!(cells(&w), vec![2, 10, 9]);
    w.step();
    assert_eq!(cells(&w), vec![58, 2, 10]);
    w.change_snake_dir(Direction::Down);
    w.step();
    assert_eq!(cells(&w), vec![50, 58, 2]);
}

#[test]
fn eating_grows_snake_and_scores() {
    let mut w = World::new(8, 10);
    assert!(w.offer_reward_cell(11));
    assert_eq!(w.reward_cell(), Some(11));
    w.start_game();
    w.step();
    assert_eq!(w.snake_length(), 4);
    assert_eq!(w.points(), 1);
    assert_eq!(cells(&w), vec![11, 10, 9, 9]);
    assert_eq!(w.reward_cell(), None);
    assert!(w.needs_reward());
    assert_eq!(w.game_status(), Some(GameStatus::Played));
    w.step();
    assert_eq!(cells(&w), vec![12, 11, 10, 9]);
    assert_eq!(w.points(), 1);
}

#[test]
fn reward_offers_are_checked() {
    let mut w = World::new(8, 10);
    assert!(!w.offer_reward_cell(9));
    assert!(!w.offer_reward_cell(64));
    assert!(w.offer_reward_cell(63));
    assert!(!w.needs_reward());
    assert!(!w.offer_reward_cell(20));
    assert_eq!(w.reward_cell(), Some(63));
}

#[test]
fn reward_never_under_snake() {
    let mut w = World::new(4, 2);
    w.start_game();
    let mut next_free = 3;
    for _ in 0..6 {
        while w.needs_reward() {
            w.offer_reward_cell(next_free);
            next_free = (next_free + 5) % 16;
        }
        w.step();
        if let Some(r) = w.reward_cell() {
            assert!(!cells(&w).contains(&r));
        }
    }
}

#[test]
fn running_into_itself_loses() {
    let w = lost_world();
    assert_eq!(w.game_status(), Some(GameStatus::Lost));
    assert_eq!(w.game_status_text(), "You have lost!");
    assert_eq!(cells(&w), vec![1, 0, 3, 2, 1]);
    assert_eq!(w.points(), 2);
}

#[test]
fn lost_game_stays_lost() {
    let mut w = lost_world();
    let before = cells(&w);
    w.step();
    w.change_snake_dir(Direction::Down);
    w.step();
    w.start_game();
    w.step();
    assert_eq!(cells(&w), before);
    assert_eq!(w.points(), 2);
    assert_eq!(w.snake_length(), 5);
    assert_eq!(w.game_status(), Some(GameStatus::Lost));
    assert!(!w.needs_reward());
}

#[test]
fn filling_the_board_wins() {
    // A cycle through all 16 cells of the 4 x 4 torus: along a row, then down.
    let cycle: [usize; 16] = [0, 1, 2, 3, 7, 4, 5, 6, 10, 11, 8, 9, 13, 14, 15, 12];
    let position = |cell: usize| cycle.iter().position(|&c| c == cell).unwrap();
    let mut w = World::new(4, 2);
    w.start_game();
    let mut last_points = 0;
    let mut last_length = 0;
    for _ in 0..40 {
        if w.game_status() != Some(GameStatus::Played) {
            break;
        }
        let head = w.snake_head_idx();
        let ahead = cycle[(position(head) + 1) % 16];
        if w.needs_reward() {
            assert!(w.offer_reward_cell(ahead));
        }
        w.change_snake_dir(direction_between(4, head, ahead));
        last_points = w.points();
        last_length = w.snake_length();
        w.step();
    }
    assert_eq!(w.game_status(), Some(GameStatus::Won));
    assert_eq!(w.game_status_text(), "You have won!");
    assert_eq!(w.reward_cell(), None);
    assert_eq!(last_length, 16);
    assert_eq!(w.snake_length(), 16);
    assert_eq!(w.points(), last_points);
    assert_eq!(w.points(), 13);
    let mut covered = cells(&w);
    covered.sort();
    covered.dedup();
    assert_eq!(covered.len(), 16);
    assert!(!w.needs_reward());
    let before = cells(&w);
    w.step();
    assert_eq!(cells(&w), before);
    assert_eq!(w.game_status(), Some(GameStatus::Won));
}
