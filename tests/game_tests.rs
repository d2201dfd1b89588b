use algae::game::Game;
use algae::setup::Coord;

#[test]
fn test_unmake_move() {
    // wall collisions
    let mut game = Game::new(7, 7);
    game.add_start_snake(0);
    game.add_start_snake(6);
    let game_clone = game.clone();
    let prev_state = game.move_snakes(&vec![0, 1]);
    game.unmove_snake(&prev_state);
    assert_eq!(game, game_clone);

    // head-to-head collisions
    let mut game = Game::new(7, 7);
    game.add_start_snake(0);
    game.add_start_snake(2);
    let game_clone = game.clone();
    let prev_state = game.move_snakes(&vec![1, 3]);
    println!("{:?}", game);
    game.unmove_snake(&prev_state);
    assert_eq!(game, game_clone);

    // snake-to-snake body collisions
    let mut game = Game::new(7, 7);
    game.add_start_snake(0);
    game.add_start_snake(8);
    game.move_snakes(&vec![0, 0]);
    let game_clone = game.clone();
    let prev_state = game.move_snakes(&vec![1, 0]);
    game.unmove_snake(&prev_state);
    assert_eq!(game, game_clone);

    // self collisions
    let mut game = Game::new(7, 7);
    game.add_start_snake(1);
    game.snakes[0].queued = 10;
    game.add_start_snake(6);
    game.move_snakes(&vec![0, 0]);
    game.move_snakes(&vec![3, 0]);
    game.move_snakes(&vec![2, 0]);
    let game_clone = game.clone();
    let prev_state = game.move_snakes(&vec![1, 0]);
    game.unmove_snake(&prev_state);
    assert_eq!(game, game_clone);
    let mut game = Game::new(7, 7);
    game.add_start_snake(0);
    game.add_start_snake(6);
    let game_clone = game.clone();
    let prev_state = game.move_snakes(&vec![2, 0]);
    game.unmove_snake(&prev_state);
    assert_eq!(game, game_clone);

    // eating apple
    let mut game = Game::new(7, 7);
    game.add_start_snake(0);
    game.add_start_snake(6);
    let mut apples = vec![false; 121];
    apples[1] = true;
    game.apples = apples;
    let game_clone = game.clone();
    let prev_state = game.move_snakes(&vec![1, 0]);
    game.unmove_snake(&prev_state);
    assert_eq!(game, game_clone);
}

#[test]
fn new_board_is_empty() {
    let game = Game::new(3, 4);
    assert_eq!(game.snakes.len(), 0);
    assert_eq!(game.apples, vec![false; 12]);
    assert_eq!((game.width, game.height), (3, 4));
}

#[test]
fn start_snake_has_one_cell_and_growth() {
    let mut game = Game::new(3, 3);
    game.add_start_snake(4);
    let s = &game.snakes[0];
    assert_eq!(s.positions, vec![4]);
    assert_eq!(s.health, 100);
    assert_eq!(s.queued, 2);
    let mut body = vec![false; 9];
    body[4] = true;
    assert_eq!(s.snake_arr, body);
}

#[test]
fn add_snake_keeps_fields() {
    let mut game = Game::new(3, 3);
    game.add_snake(vec![1, 0], vec![true, true, false, false, false, false, false, false, false], 40, 1);
    assert_eq!(game.snakes[0].positions, vec![1, 0]);
    assert_eq!(game.snakes[0].health, 40);
    assert_eq!(game.snakes[0].queued, 1);
}

#[test]
fn plain_move_shifts_body() {
    let mut game = Game::new(5, 5);
    game.add_snake(vec![12, 11, 10], snake_arr(25, &[12, 11, 10]), 50, 0);
    game.move_snakes(&vec![1]);
    let s = &game.snakes[0];
    assert_eq!(s.positions, vec![13, 12, 11]);
    assert_eq!(s.snake_arr, snake_arr(25, &[13, 12, 11]));
    assert_eq!(s.health, 49);
    assert_eq!(s.queued, 0);
}

#[test]
fn growth_keeps_tail() {
    let mut game = Game::new(5, 5);
    game.add_start_snake(12);
    game.move_snakes(&vec![0]);
    let s = &game.snakes[0];
    assert_eq!(s.positions, vec![17, 12]);
    assert_eq!(s.queued, 1);
    assert_eq!(s.health, 99);
}

#[test]
fn eating_restores_health_and_grows() {
    let mut game = Game::new(5, 5);
    game.add_snake(vec![12, 11], snake_arr(25, &[12, 11]), 30, 0);
    game.apples[13] = true;
    let before = game.clone();
    let change = game.move_snakes(&vec![1]);
    assert_eq!(game.snakes[0].health, 100);
    assert_eq!(game.snakes[0].queued, 1);
    assert_eq!(game.snakes[0].positions, vec![13, 12]);
    assert!(!game.apples[13]);
    game.unmove_snake(&change);
    assert_eq!(game, before);
}

#[test]
fn starving_agent_dies() {
    let mut game = Game::new(5, 5);
    game.add_snake(vec![12, 11], snake_arr(25, &[12, 11]), 1, 0);
    game.move_snakes(&vec![1]);
    assert_eq!(game.snakes[0].health, 0);
}

#[test]
fn wrap_right_from_last_column_eliminates() {
    for row in 0..5u16 {
        let mut game = Game::new(5, 5);
        let cell = row * 5 + 4;
        game.add_start_snake(cell);
        let before = game.clone();
        let change = game.move_snakes(&vec![1]);
        assert_eq!(game.snakes[0].health, 0);
        assert_eq!(game.snakes[0].positions, vec![cell]);
        game.unmove_snake(&change);
        assert_eq!(game, before);
    }
}

#[test]
fn wrap_left_from_first_column_eliminates() {
    for row in 0..5u16 {
        let mut game = Game::new(5, 5);
        let cell = row * 5;
        game.add_start_snake(cell);
        game.move_snakes(&vec![3]);
        assert_eq!(game.snakes[0].health, 0);
        assert_eq!(game.snakes[0].positions, vec![cell]);
    }
}

#[test]
fn off_top_and_bottom_eliminate() {
    let mut game = Game::new(5, 5);
    game.add_start_snake(22);
    game.add_start_snake(2);
    game.move_snakes(&vec![0, 2]);
    assert_eq!(game.snakes[0].health, 0);
    assert_eq!(game.snakes[1].health, 0);
}

#[test]
fn head_to_head_equal_lengths_both_die() {
    let mut game = Game::new(7, 7);
    game.add_start_snake(0);
    game.add_start_snake(2);
    game.move_snakes(&vec![1, 3]);
    assert_eq!(game.snakes[0].health, 0);
    assert_eq!(game.snakes[1].health, 0);
}

#[test]
fn head_to_head_shorter_dies() {
    let mut game = Game::new(7, 7);
    game.add_snake(vec![1, 0], snake_arr(49, &[1, 0]), 90, 0);
    game.add_snake(vec![3], snake_arr(49, &[3]), 90, 0);
    game.move_snakes(&vec![1, 3]);
    assert_eq!(game.snakes[0].health, 89);
    assert_eq!(game.snakes[1].health, 0);
}

#[test]
fn head_into_body_dies() {
    let mut game = Game::new(7, 7);
    game.add_snake(vec![9, 8, 7], snake_arr(49, &[9, 8, 7]), 90, 0);
    game.add_snake(vec![1], snake_arr(49, &[1]), 90, 0);
    game.move_snakes(&vec![1, 0]);
    assert_eq!(game.snakes[0].health, 89);
    assert_eq!(game.snakes[1].health, 0);
}

#[test]
fn self_collision_keeps_shape() {
    let mut game = Game::new(5, 5);
    // a U shape whose head can turn onto its own neck
    game.add_snake(vec![6, 7, 12, 11], snake_arr(25, &[6, 7, 12, 11]), 90, 0);
    let before = game.snakes[0].clone();
    game.move_snakes(&vec![1]);
    let after = &game.snakes[0];
    assert_eq!(after.health, 0);
    assert_eq!(after.positions, before.positions);
    assert_eq!(after.snake_arr, before.snake_arr);
}

#[test]
fn moving_into_vacating_tail_is_fine() {
    let mut game = Game::new(5, 5);
    game.add_snake(vec![6, 7, 12, 11], snake_arr(25, &[6, 7, 12, 11]), 90, 0);
    let before = game.clone();
    let change = game.move_snakes(&vec![0]);
    assert_eq!(game.snakes[0].health, 89);
    assert_eq!(game.snakes[0].positions, vec![11, 6, 7, 12]);
    assert_eq!(game.snakes[0].snake_arr, snake_arr(25, &[11, 6, 7, 12]));
    game.unmove_snake(&change);
    assert_eq!(game, before);
}

#[test]
fn tail_with_pending_growth_does_not_vacate() {
    let mut game = Game::new(5, 5);
    game.add_snake(vec![6, 7, 12, 11], snake_arr(25, &[6, 7, 12, 11]), 90, 1);
    game.move_snakes(&vec![0]);
    assert_eq!(game.snakes[0].health, 0);
    assert_eq!(game.snakes[0].positions, vec![6, 7, 12, 11]);
}

#[test]
fn dead_agents_are_untouched() {
    let mut game = Game::new(5, 5);
    game.add_snake(vec![12], snake_arr(25, &[12]), 0, 0);
    let before = game.clone();
    let change = game.move_snakes(&vec![1]);
    assert_eq!(game, before);
    game.unmove_snake(&change);
    assert_eq!(game, before);
}

fn snake_arr(cells: usize, occupied: &[u16]) -> Vec<bool> {
    let mut arr = vec![false; cells];
    for &c in occupied {
        arr[c as usize] = true;
    }
    arr
}

#[test]
fn coord_cell_is_row_major() {
    assert_eq!(Coord { x: 3, y: 2 }.cell(7, 7), 17);
    assert_eq!(Coord { x: 0, y: 0 }.cell(7, 7), 0);
    assert_eq!(Coord { x: 6, y: 6 }.cell(7, 7), 48);
}

#[test]
fn food_goes_to_its_cell() {
    let mut game = Game::new(5, 4);
    game.place_food(&Coord { x: 2, y: 3 });
    let mut apples = vec![false; 20];
    apples[17] = true;
    assert_eq!(game.apples, apples);
}

#[test]
fn body_with_stacked_segments_becomes_growth() {
    let mut game = Game::new(7, 7);
    let body = vec![Coord { x: 1, y: 1 }, Coord { x: 1, y: 1 }, Coord { x: 1, y: 1 }];
    assert!(game.add_snake_from_body(&body, 100));
    let s = &game.snakes[0];
    assert_eq!(s.positions, vec![8]);
    assert_eq!(s.queued, 2);
    assert_eq!(s.health, 100);
    let mut arr = vec![false; 49];
    arr[8] = true;
    assert_eq!(s.snake_arr, arr);

    let body = vec![Coord { x: 2, y: 0 }, Coord { x: 1, y: 0 }, Coord { x: 0, y: 0 }, Coord { x: 0, y: 0 }];
    assert!(game.add_snake_from_body(&body, 70));
    assert_eq!(game.snakes[1].positions, vec![2, 1, 0]);
    assert_eq!(game.snakes[1].queued, 1);
}

#[test]
fn body_off_the_board_is_refused() {
    let mut game = Game::new(7, 7);
    let before = game.clone();
    assert!(!game.add_snake_from_body(&vec![Coord { x: 7, y: 0 }], 100));
    assert_eq!(game, before);
}

#[test]
fn searchable_boards() {
    let mut game = Game::new(7, 7);
    assert!(!game.is_searchable());
    game.add_start_snake(3);
    assert!(game.is_searchable());
    game.add_snake(vec![4, 4], {
        let mut a = vec![false; 49];
        a[4] = true;
        a
    }, 100, 0);
    assert!(!game.is_searchable());
}
