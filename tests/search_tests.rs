use algae::eval::{eval, score_scale_of};
use algae::game::Game;
use algae::legal::{explored_moves, is_move_allowed};
use algae::search::{best_move, budget_left, max, min};

#[test]
fn test_bestmove() {
    // self trap
    let mut game = Game::new(7, 7);
    game.add_start_snake(1);
    game.snakes[0].queued = 10;
    game.add_start_snake(6);
    game.move_snakes(&vec![0, 0]);
    game.move_snakes(&vec![3, 0]);
    game.move_snakes(&vec![2, 0]);
    let scale = score_scale_of(&game);
    assert_eq!(best_move(&mut game, 1, i128::MAX).unwrap().1, -10000 * scale);

    // trap the other snake
    let mut game = Game::new(7, 7);
    game.add_start_snake(9);
    game.snakes[0].queued = 3;
    game.add_start_snake(0);
    game.snakes[1].queued = 3;
    game.move_snakes(&vec![1, 1]);
    game.move_snakes(&vec![1, 1]);
    game.move_snakes(&vec![1, 1]);
    let scale = score_scale_of(&game);
    assert_eq!(best_move(&mut game, 2, i128::MAX).unwrap(), (2, 10000 * scale));

    // avoid losing head-to-head
    let mut game = Game::new(7, 7);
    game.add_start_snake(0);
    game.add_start_snake(6);
    game.snakes[1].queued = 3;
    game.move_snakes(&vec![1, 3]);
    game.move_snakes(&vec![1, 3]);
    game.move_snakes(&vec![1, 3]);
    let best_move = best_move(&mut game, 2, i128::MAX).unwrap().0;
    assert_ne!(best_move, 1);
    assert_ne!(best_move, 3);
}

fn snake_arr(cells: usize, occupied: &[u16]) -> Vec<bool> {
    let mut arr = vec![false; cells];
    for &c in occupied {
        arr[c as usize] = true;
    }
    arr
}

#[test]
fn negative_budget_gives_no_result_and_keeps_board() {
    let mut game = Game::new(7, 7);
    game.add_start_snake(24);
    game.add_start_snake(10);
    let before = game.clone();
    assert_eq!(best_move(&mut game, 3, -1), None);
    assert_eq!(max(&mut game, i64::MIN, i64::MAX, 3, -1), None);
    assert_eq!(min(&mut game, 0, i64::MIN, i64::MAX, 3, -5), None);
    assert_eq!(best_move(&mut game, 3, 0), None);
    assert_eq!(max(&mut game, i64::MIN, i64::MAX, 0, 0), None);
    assert_eq!(min(&mut game, 0, i64::MIN, i64::MAX, 0, 0), None);
    assert_eq!(game, before);
}

#[test]
fn budget_left_subtracts_or_goes_negative() {
    assert_eq!(budget_left(500, 120), 380);
    assert_eq!(budget_left(500, 500), 0);
    assert!(budget_left(500, 501) < 0);
    assert!(budget_left(0, u128::MAX) < 0);
}

#[test]
fn sentinels_come_without_search() {
    let mut game = Game::new(7, 7);
    game.add_snake(vec![24], snake_arr(49, &[24]), 0, 0);
    game.add_snake(vec![10], snake_arr(49, &[10]), 50, 0);
    let scale = score_scale_of(&game);
    // dead controlled agent: the losing sentinel, whatever the window
    assert_eq!(max(&mut game, 0, 1, 3, 1000), Some(-10000 * scale));
    game.snakes[0].health = 50;
    game.snakes[1].health = 0;
    // no live opponent: the winning sentinel, whatever the window
    assert_eq!(min(&mut game, 0, 0, 1, 3, 1000), Some(10000 * scale));
    game.snakes[1].health = 50;
    let e = eval(&game);
    assert_eq!(min(&mut game, 0, e + 1, e + 2, 0, 1000), Some(e));
}

#[test]
fn window_results_are_clamped() {
    let mut game = Game::new(7, 7);
    game.add_start_snake(24);
    game.add_start_snake(10);
    let v = max(&mut game, i64::MIN, i64::MAX, 2, i128::MAX).unwrap();
    assert_eq!(max(&mut game, v + 1, v + 5, 2, i128::MAX), Some(v + 1));
    assert_eq!(max(&mut game, v - 5, v - 1, 2, i128::MAX), Some(v - 1));
    assert_eq!(max(&mut game, v - 5, v + 5, 2, i128::MAX), Some(v));
    let m = min(&mut game, 1, i64::MIN, i64::MAX, 2, i128::MAX).unwrap();
    assert_eq!(min(&mut game, 1, m + 1, m + 5, 2, i128::MAX), Some(m + 1));
    assert_eq!(min(&mut game, 1, m - 5, m - 1, 2, i128::MAX), Some(m - 1));
}

#[test]
fn search_restores_board() {
    let mut game = Game::new(7, 7);
    game.add_start_snake(24);
    game.add_start_snake(10);
    game.apples[25] = true;
    let before = game.clone();
    assert!(best_move(&mut game, 3, i128::MAX).is_some());
    assert_eq!(game, before);
}

#[test]
fn evaluator_terminal_overrides() {
    let mut game = Game::new(7, 7);
    game.add_snake(vec![24], snake_arr(49, &[24]), 0, 0);
    game.add_snake(vec![10], snake_arr(49, &[10]), 0, 0);
    let scale = score_scale_of(&game);
    assert_eq!(scale, 5 * 14);
    assert_eq!(eval(&game), 0);
    game.snakes[1].health = 30;
    assert_eq!(eval(&game), -10000 * scale);
    game.snakes[0].health = 30;
    game.snakes[1].health = 0;
    assert_eq!(eval(&game), 10000 * scale);
}

#[test]
fn evaluator_positional_score() {
    // 5 x 5, controlled agent at the centre alone in its row and column,
    // opponent in a corner.
    let mut game = Game::new(5, 5);
    game.add_snake(vec![12], snake_arr(25, &[12]), 60, 1);
    game.add_snake(vec![0], snake_arr(25, &[0]), 50, 0);
    // own: rays 2 + 2 + 2 + 2 = 8; opponent at cell 0: up 4 (cells 5..20),
    // right 4 (1..4), down 0, left 0 = 8.
    // own = 5*10*(1+1) + 5*8 + 10*(60-50) = 100 + 40 + 100 = 240
    // opp = 5*10*(1+0) + 5*8 + 10*(50-50) = 50 + 40 = 90
    assert_eq!(eval(&game), 240 - 90);
}

#[test]
fn evaluator_rays_stop_at_bodies() {
    let mut game = Game::new(5, 5);
    game.add_snake(vec![12], snake_arr(25, &[12]), 50, 0);
    game.add_snake(vec![14, 13], snake_arr(25, &[14, 13]), 50, 0);
    // own rays: up 2, right 0 (13 is taken), down 2, left 2 = 6
    // opponent head 14: up 2, right 0, down 2, left 0 = 4
    // own = 50*1 + 5*6 + 0 = 80; opp = 50*2 + 5*4 + 0 = 120
    assert_eq!(eval(&game), 80 - 120);
}

#[test]
fn depth_zero_is_evaluation() {
    let mut game = Game::new(5, 5);
    game.add_snake(vec![12], snake_arr(25, &[12]), 60, 1);
    game.add_snake(vec![0], snake_arr(25, &[0]), 50, 0);
    let e = eval(&game);
    assert_eq!(max(&mut game, i64::MIN, i64::MAX, 0, i128::MAX), Some(e));
}

#[test]
fn move_filter() {
    let mut game = Game::new(5, 5);
    game.add_snake(vec![6, 7, 12, 11], snake_arr(25, &[6, 7, 12, 11]), 90, 0);
    game.add_start_snake(0);
    let s = &game.snakes[0];
    assert!(is_move_allowed(s, 0, 5, 5)); // onto the vacating tail
    assert!(!is_move_allowed(s, 1, 5, 5)); // onto its neck
    assert!(is_move_allowed(s, 2, 5, 5));
    assert!(is_move_allowed(s, 3, 5, 5));
    let corner = &game.snakes[1];
    assert!(is_move_allowed(corner, 0, 5, 5));
    assert!(is_move_allowed(corner, 1, 5, 5));
    assert!(!is_move_allowed(corner, 2, 5, 5));
    assert!(!is_move_allowed(corner, 3, 5, 5));
    assert_eq!(explored_moves(corner, 5, 5), [true, true, false, false]);
}

#[test]
fn boxed_in_agent_gets_placeholder() {
    let mut game = Game::new(7, 7);
    game.add_snake(vec![0, 7, 8, 1], snake_arr(49, &[0, 7, 8, 1]), 90, 7);
    assert_eq!(explored_moves(&game.snakes[0], 7, 7), [true, false, false, false]);
    game.add_start_snake(30);
    let scale = score_scale_of(&game);
    for depth in 1..4u8 {
        assert_eq!(best_move(&mut game, depth, i128::MAX), Some((0, -10000 * scale)));
    }
}

/// Plain minimax over the same tree, without pruning.
fn minimax_max(game: &mut Game, depth: u8) -> i64 {
    let scale = score_scale_of(game);
    if game.snakes[0].health == 0 {
        return -10000 * scale;
    }
    if depth == 0 {
        return eval(game);
    }
    let mut best = i64::MIN;
    let opts = explored_moves(&game.snakes[0], game.width, game.height);
    for d in 0..4u8 {
        if opts[d as usize] {
            best = best.max(minimax_min(game, d, depth));
        }
    }
    best
}

fn minimax_min(game: &mut Game, own: u8, depth: u8) -> i64 {
    let scale = score_scale_of(game);
    if !game.snakes[1..].iter().any(|s| s.health > 0) {
        return 10000 * scale;
    }
    if depth == 0 {
        return eval(game);
    }
    minimax_joint(game, &mut vec![own], depth)
}

fn minimax_joint(game: &mut Game, moves: &mut Vec<u8>, depth: u8) -> i64 {
    if moves.len() == game.snakes.len() {
        let change = game.move_snakes(moves);
        let v = minimax_max(game, depth - 1);
        game.unmove_snake(&change);
        return v;
    }
    let opts = explored_moves(&game.snakes[moves.len()], game.width, game.height);
    let mut worst = i64::MAX;
    for d in 0..4u8 {
        if opts[d as usize] {
            moves.push(d);
            worst = worst.min(minimax_joint(game, moves, depth));
            moves.pop();
        }
    }
    worst
}

#[test]
fn alpha_beta_matches_plain_minimax() {
    let setups: Vec<(Vec<u16>, Vec<u16>, Vec<usize>)> = vec![
        (vec![24, 17], vec![10], vec![]),
        (vec![8, 9, 10], vec![40, 41], vec![11, 30]),
        (vec![0, 1], vec![6, 5], vec![3]),
        (vec![30, 23, 16], vec![32, 25], vec![31, 24]),
    ];
    for (own, opp, food) in setups {
        for depth in 0..3u8 {
            let mut game = Game::new(7, 7);
            let own_arr = snake_arr(49, &own);
            let opp_arr = snake_arr(49, &opp);
            game.add_snake(own.clone(), own_arr, 80, 0);
            game.add_snake(opp.clone(), opp_arr, 80, 0);
            for f in &food {
                game.apples[*f] = true;
            }
            let before = game.clone();
            let full = minimax_max(&mut game, depth);
            let pruned = max(&mut game, i64::MIN, i64::MAX, depth, i128::MAX);
            assert_eq!(pruned, Some(full));
            assert_eq!(game, before);
            if depth > 0 {
                let (dir, score) = best_move(&mut game, depth, i128::MAX).unwrap();
                let mut first_best = None;
                let opts = explored_moves(&game.snakes[0], 7, 7);
                let mut best = i64::MIN;
                for d in 0..4u8 {
                    if opts[d as usize] {
                        let v = minimax_min(&mut game, d, depth);
                        if v > best {
                            best = v;
                            first_best = Some(d);
                        }
                    }
                }
                assert_eq!((dir, score), (first_best.unwrap(), best));
                assert_eq!(game, before);
            }
        }
    }
}
