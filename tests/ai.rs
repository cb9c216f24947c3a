use sunrise::{AiController, Game};

fn chain(game: &Game, k: usize) -> Vec<(i16, i16)> {
    game.units.get(k).unwrap().parts.iter().cloned().collect()
}

#[test]
fn ai_starts_idle() {
    let ai = AiController::new();
    assert_eq!(ai.delay, 9);
    assert!(ai.enemy_positions.is_empty());
    assert!(ai.path.is_none());
    assert!(!ai.is_local_controlled());
}

#[test]
fn ai_waits_then_plans_then_steps() {
    let mut game = Game::sample("A###1").unwrap();
    game.select_team(1);
    let mut ai = AiController::new();
    for _ in 0..9 {
        ai.handle_frame(&mut game);
    }
    assert_eq!(ai.delay, 0);
    assert!(ai.path.is_none());
    assert_eq!(ai.enemy_positions, vec![(4, 0, 1)]);
    ai.handle_frame(&mut game);
    assert_eq!(ai.delay, 9);
    assert_eq!(ai.path, Some(vec![(1, 0)]));
    for _ in 0..10 {
        ai.handle_frame(&mut game);
    }
    assert_eq!(chain(&game, 0), vec![(1, 0), (0, 0)]);
}

#[test]
fn ai_destination_prefers_first_in_reading_order() {
    let mut game = Game::sample("###\n#A#\n###\n#1#").unwrap();
    game.select_team(1);
    let mut ai = AiController::new();
    ai.update_enemy_positions(&game);
    // of the cells within one step of (1, 1), (1, 2) is the nearest to the
    // enemy at (1, 3)
    assert_eq!(ai.choose_destination(&game, 1), Some((1, 2)));
    assert_eq!(ai.choose_destination(&game, 0), Some((1, 2)));
}

#[test]
fn ai_path_follows_gradient_back() {
    let mut game = Game::sample("1####").unwrap();
    game.select(0);
    let (path, reached) = AiController::plan_path(&game, (3, 0), (0, 0));
    assert!(reached);
    assert_eq!(path, vec![(1, 0), (1, 0), (1, 0)]);
    let (path, reached) = AiController::plan_path(&game, (4, 0), (0, 0));
    assert!(reached);
    assert_eq!(path.len(), 4);
    let mut walled = Game::sample("1# #").unwrap();
    walled.select(0);
    let (path, reached) = AiController::plan_path(&walled, (3, 0), (0, 0));
    assert!(!reached);
    assert!(path.is_empty());
}

#[test]
fn ai_picks_longest_target_in_reach() {
    let mut game = Game::sample("#1#\n2A#").unwrap();
    game.select_team(1);
    let mut ai = AiController::new();
    ai.update_enemy_positions(&game);
    assert_eq!(ai.enemy_positions, vec![(1, 0, 0), (0, 1, 1)]);
    assert_eq!(ai.pick_target(&game, (1, 1), 1), Some((1, 0)));
    assert_eq!(ai.pick_target(&game, (2, 1), 0), None);
}
