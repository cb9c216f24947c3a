use std::collections::VecDeque;

use sunrise::{AiController, Attack, Cell, Command, Game, Grid, LoadError, LocalController, Team, TeamController, Unit};

fn teams() -> Vec<Team> {
    vec![
        Team { name: "Player".to_owned(), controller: TeamController::Local(LocalController) },
        Team { name: "Enemy".to_owned(), controller: TeamController::Ai(AiController::new()) },
    ]
}

fn floor_grid(width: usize, height: usize) -> Grid {
    let row = "#".repeat(width);
    let text = vec![row; height].join("\n");
    Grid::from_string(&text).unwrap().0
}

fn value(grid: &Grid, overlay: &[u16], x: usize, y: usize) -> u16 {
    overlay[x + y * grid.width]
}

fn chain(game: &Game, k: usize) -> Vec<(i16, i16)> {
    game.units.get(k).unwrap().parts.iter().cloned().collect()
}

fn unit_at(coords: (i16, i16), team: u16, parts: &[(i16, i16)]) -> Unit {
    let mut u = if team == 0 { Unit::sample(coords) } else { Unit::sample_enemy(coords) };
    u.parts = parts.iter().cloned().collect::<VecDeque<_>>();
    u
}

#[test]
fn overlay_nine_by_six_budget_three() {
    let level = "#########\n#########\n####1####\n#########\n#########\n#########";
    let mut game = Game::sample(level).unwrap();
    game.select(0);
    let g = &game.grid;
    assert_eq!(value(g, &g.highlight, 4, 2), 4);
    assert_eq!(value(g, &g.highlight, 4, 5), 1);
    assert_eq!(value(g, &g.highlight, 5, 2), 3);
    assert_eq!(value(g, &g.highlight, 8, 2), 0);
    assert_eq!(value(g, &g.highlight, 0, 0), 0);
    for y in 0..6usize {
        for x in 0..9usize {
            let d = (x as i32 - 4).abs() + (y as i32 - 2).abs();
            let want = if d <= 3 { (4 - d) as u16 } else { 0 };
            assert_eq!(value(g, &g.highlight, x, y), want, "cell ({}, {})", x, y);
        }
    }
    assert_eq!(g.player_pos, Some((4, 2)));
}

#[test]
fn overlay_walks_around_walls_and_units() {
    let level = "#####\n## ##\n#1#A#\n#####";
    let mut game = Game::sample(level).unwrap();
    game.select(0);
    let g = &game.grid;
    assert_eq!(value(g, &g.highlight, 1, 2), 4);
    // the empty cell and the other unit block walks
    assert_eq!(value(g, &g.highlight, 2, 1), 0);
    assert_eq!(value(g, &g.highlight, 3, 2), 0);
    // (3, 1) is four steps away round the wall and the unit
    assert_eq!(value(g, &g.highlight, 3, 1), 0);
    assert_eq!(value(g, &g.highlight, 2, 2), 3);
    assert_eq!(value(g, &g.highlight, 1, 0), 2);
    assert_eq!(value(g, &g.highlight, 4, 3), 0);
    assert_eq!(value(g, &g.highlight, 3, 3), 1);
}

#[test]
fn steps_right_grow_then_drop_tail() {
    let mut u = Unit::sample((0, 0));
    u.moves = 4;
    u.move_limit = 4;
    let mut game = Game::new(floor_grid(9, 1), vec![u], teams());
    game.select(0);
    for _ in 0..3 {
        game.relocate(0, 1, 0);
    }
    assert_eq!(chain(&game, 0), vec![(3, 0), (2, 0), (1, 0), (0, 0)]);
    game.relocate(0, 1, 0);
    assert_eq!(chain(&game, 0), vec![(4, 0), (3, 0), (2, 0), (1, 0)]);
    assert_eq!(game.units.get(0).unwrap().moves, 0);
}

#[test]
fn retrace_reorders_without_growth() {
    let mut u = unit_at((1, 0), 0, &[(1, 0), (1, 1), (0, 1), (0, 0)]);
    u.moves = 3;
    let mut game = Game::new(floor_grid(3, 3), vec![u], teams());
    game.relocate(0, -1, 0);
    assert_eq!(chain(&game, 0), vec![(0, 0), (1, 0), (1, 1), (0, 1)]);
    assert_eq!(game.units.get(0).unwrap().moves, 2);
}

#[test]
fn illegal_steps_change_nothing() {
    let mut game = Game::new(floor_grid(3, 1), vec![Unit::sample((0, 0))], teams());
    game.relocate(0, -1, 0);
    game.relocate(0, 2, 0);
    game.relocate(0, 1, 1);
    assert_eq!(chain(&game, 0), vec![(0, 0)]);
    assert_eq!(game.units.get(0).unwrap().moves, 3);
    assert!(game.undo.is_empty());
}

#[test]
fn damage_two_then_three_removes_target() {
    let mut target = unit_at((1, 0), 0, &[(1, 0), (2, 0), (3, 0)]);
    target.damage(2);
    assert_eq!(target.parts.len(), 1);
    let attacker = Unit::sample_enemy((0, 0));
    let mut game = Game::new(floor_grid(5, 1), vec![target, attacker], teams());
    assert!(game.units.get(0).is_some());
    game.current_team = 1;
    game.select(1);
    game.attack(1, 0);
    game.grid.attack_loc = Some((1, 0));
    game.fire(1);
    assert!(game.units.get(0).is_none());
    let a = game.units.get(1).unwrap();
    assert!(a.has_attacked);
    assert_eq!(a.moves, 0);
    assert_eq!(a.attack, None);
    assert_eq!(game.grid.attack_loc, None);
}

#[test]
fn damage_clamps_at_zero() {
    let mut u = unit_at((0, 0), 0, &[(0, 0), (1, 0)]);
    u.damage(5);
    assert_eq!(u.parts.len(), 0);
}

#[test]
fn select_team_resets_and_selects_lowest() {
    let level = "1#A\n##B";
    let mut game = Game::sample(level).unwrap();
    game.select(0);
    game.save();
    game.relocate(0, 0, 1);
    assert_eq!(game.units.get(0).unwrap().moves, 2);
    game.select_team(1);
    assert_eq!(game.current_team, 1);
    assert_eq!(game.selected_idx, Some(1));
    assert!(game.undo.is_empty());
    for (_, u) in game.units.iter() {
        assert_eq!(u.moves, u.move_limit);
        assert!(!u.has_attacked);
        assert_eq!(u.attack, None);
    }
    assert!(game.units.get(1).unwrap().selected);
    assert!(!game.units.get(0).unwrap().selected);
}

#[test]
fn undo_restores_last_snapshot() {
    let level = "1####\n#####";
    let mut game = Game::sample(level).unwrap();
    game.select(0);
    let before_grid = game.grid.grid.clone();
    game.relocate(0, 1, 0);
    game.relocate(0, 1, 0);
    assert_eq!(chain(&game, 0), vec![(2, 0), (1, 0), (0, 0)]);
    assert_eq!(game.undo.len(), 1);
    game.undo();
    assert_eq!(chain(&game, 0), vec![(0, 0)]);
    assert_eq!(game.units.get(0).unwrap().moves, 3);
    assert_eq!(game.selected_idx, Some(0));
    assert_eq!(game.grid.grid, before_grid);
    assert!(game.undo.is_empty());
    assert!(!game.done);
    // an empty history is a no-op
    game.undo();
    assert_eq!(chain(&game, 0), vec![(0, 0)]);
}

#[test]
fn aiming_shows_attack_overlay_and_toggles() {
    let level = "#####\n##1##\n#####";
    let mut game = Game::sample(level).unwrap();
    game.select(0);
    game.attack(0, 0);
    let g = &game.grid;
    assert_eq!(g.attack_loc, Some((2, 1)));
    assert_eq!(value(g, &g.attack_hi, 2, 1), 2);
    assert_eq!(value(g, &g.attack_hi, 1, 1), 1);
    assert_eq!(value(g, &g.attack_hi, 2, 0), 1);
    assert_eq!(value(g, &g.attack_hi, 1, 0), 0);
    assert!(g.highlight.iter().all(|&v| v == 0));
    assert_eq!(game.undo.len(), 1);
    game.attack(0, 0);
    assert_eq!(game.grid.attack_loc, None);
    assert_eq!(game.units.get(0).unwrap().attack, None);
    assert!(game.undo.is_empty());
}

#[test]
fn cursor_moves_along_direction() {
    let level = "#####\n##1##\n#####";
    let mut game = Game::sample(level).unwrap();
    game.select(0);
    game.attack(0, 0);
    game.relocate(0, 1, 0);
    assert_eq!(game.grid.attack_loc, Some((3, 1)));
    game.relocate(0, 1, 0);
    assert_eq!(game.grid.attack_loc, Some((3, 1)));
    game.relocate(0, -1, 0);
    assert_eq!(game.grid.attack_loc, Some((2, 1)));
    game.relocate(0, 0, -1);
    assert_eq!(game.grid.attack_loc, Some((2, 0)));
    // the unit itself did not move
    assert_eq!(chain(&game, 0), vec![(2, 1)]);
}

#[test]
fn ground_attack_lays_floor() {
    let level = "#1 ##";
    let (grid, _) = Grid::from_string(level).unwrap();
    let mut u = Unit::sample((1, 0));
    u.attacks = vec![Attack::one()];
    let mut game = Game::new(grid, vec![u], teams());
    game.select(0);
    game.attack(0, 0);
    assert_eq!(value(&game.grid, &game.grid.attack_hi, 2, 0), 3);
    assert_eq!(value(&game.grid, &game.grid.attack_hi, 3, 0), 0);
    game.grid.attack_loc = Some((2, 0));
    game.fire(0);
    assert_eq!(game.grid.grid[2], Cell::Floor);
    assert!(game.units.get(0).unwrap().has_attacked);
}

#[test]
fn dice_needs_three_cells() {
    let short = unit_at((0, 0), 0, &[(0, 0), (0, 1)]);
    let target = unit_at((1, 0), 1, &[(1, 0), (2, 0), (3, 0), (4, 0)]);
    let mut game = Game::new(floor_grid(5, 2), vec![short, target], teams());
    game.select(0);
    game.attack(0, 1);
    game.grid.attack_loc = Some((1, 0));
    game.fire(0);
    assert_eq!(game.units.get(1).unwrap().parts.len(), 4);
    assert!(!game.units.get(0).unwrap().has_attacked);
}

#[test]
fn next_team_wraps_round() {
    let mut game = Game::sample("1#A").unwrap();
    game.select(0);
    game.next_team();
    assert_eq!(game.current_team, 1);
    assert_eq!(game.selected_idx, Some(1));
    game.next_team();
    assert_eq!(game.current_team, 0);
    assert_eq!(game.selected_idx, Some(0));
}

#[test]
fn select_next_cycles_team_units() {
    let mut game = Game::sample("1A2#1").unwrap();
    game.select(0);
    game.select_next();
    assert_eq!(game.selected_idx, Some(2));
    game.select_next();
    assert_eq!(game.selected_idx, Some(3));
    game.select_next();
    assert_eq!(game.selected_idx, Some(0));
}

#[test]
fn level_errors() {
    assert_eq!(Grid::from_string("##\n#").err(), Some(LoadError::WidthMismatch));
    assert_eq!(Grid::from_string("#Z").err(), Some(LoadError::UnknownUnit('Z')));
    assert_eq!(Grid::from_string("").err(), Some(LoadError::Empty));
    assert_eq!(Grid::from_string("\n\n").err(), Some(LoadError::Empty));
}

#[test]
fn level_reads_cells_and_units() {
    let (grid, units) = Grid::from_string("# A\r\n1#B\n").unwrap();
    assert_eq!(grid.width, 3);
    assert_eq!(grid.height(), 2);
    assert_eq!(grid.grid, vec![Cell::Floor, Cell::Empty, Cell::Floor, Cell::Floor, Cell::Floor, Cell::Floor]);
    let spots: Vec<(i16, i16)> = units.iter().map(|u| u.parts[0]).collect();
    assert_eq!(spots, vec![(2, 0), (0, 1), (2, 1)]);
    assert_eq!(units.iter().map(|u| u.team).collect::<Vec<_>>(), vec![1, 0, 1]);
    assert!(grid.is_valid(0, 0));
    assert!(!grid.is_valid(1, 0));
    assert!(grid.is_in_bounds(1, 0));
    assert!(!grid.is_in_bounds(3, 0));
}

#[test]
fn sample_grid_shape() {
    let g = Grid::sample();
    assert_eq!(g.width, 9);
    assert_eq!(g.height(), 6);
    assert!(!g.is_valid(0, 0));
    assert!(g.is_valid(2, 0));
    assert!(g.is_valid(0, 1));
    assert!(!g.is_valid(8, 5));
    assert!(!g.is_valid(-1, 2));
    let d = Grid::dummy();
    assert_eq!(d.height(), 0);
    assert!(!d.is_in_bounds(0, 0));
}

#[test]
fn local_commands() {
    let mut game = Game::sample("1###A").unwrap();
    game.select(0);
    let mut local = LocalController;
    local.handle_command(&mut game, Command::Right);
    assert_eq!(chain(&game, 0), vec![(1, 0), (0, 0)]);
    local.handle_command(&mut game, Command::Undo);
    assert_eq!(chain(&game, 0), vec![(0, 0)]);
    local.handle_command(&mut game, Command::Click(1, 0));
    assert_eq!(chain(&game, 0), vec![(1, 0), (0, 0)]);
    local.handle_command(&mut game, Command::ResetMoves);
    assert_eq!(game.units.get(0).unwrap().moves, 3);
    local.handle_command(&mut game, Command::EndTurn);
    assert_eq!(game.current_team, 1);
}

#[test]
fn game_dispatch_ignores_other_controllers() {
    let mut game = Game::sample("1###A").unwrap();
    game.select(0);
    game.handle_command(Command::Right);
    assert_eq!(chain(&game, 0), vec![(1, 0), (0, 0)]);
    game.handle_frame();
    assert_eq!(game.frame, 1);
    game.handle_command(Command::EndTurn);
    assert_eq!(game.current_team, 1);
    game.handle_command(Command::Right);
    assert_eq!(chain(&game, 1), vec![(4, 0)]);
}

#[test]
fn pointer_moves_cursor_in_range() {
    let mut game = Game::sample("#####\n##1##\n#####").unwrap();
    game.select(0);
    game.handle_pointer(3, 1);
    assert_eq!(game.grid.attack_loc, None);
    game.attack(0, 0);
    game.handle_pointer(0, 0);
    assert_eq!(game.grid.attack_loc, Some((2, 1)));
    game.handle_pointer(1, 1);
    assert_eq!(game.grid.attack_loc, Some((1, 1)));
}

#[test]
fn attack_next_cycles_targets_in_range() {
    let mut game = Game::sample("A1A#A").unwrap();
    game.select(1);
    game.attack_next(1);
    assert_eq!(game.units.get(1).unwrap().target, None);
    game.attack(1, 0);
    game.attack_next(1);
    assert_eq!(game.units.get(1).unwrap().target, Some(0));
    assert!(game.units.get(0).unwrap().under_attack);
    game.attack_next(1);
    assert_eq!(game.units.get(1).unwrap().target, Some(2));
    assert!(!game.units.get(0).unwrap().under_attack);
    assert!(game.units.get(2).unwrap().under_attack);
    game.attack_next(1);
    assert_eq!(game.units.get(1).unwrap().target, Some(0));
    // the unit at (4, 0) is out of range and never picked
    assert!(!game.units.get(3).unwrap().under_attack);
}

#[test]
fn attack_after_attacking_is_rejected() {
    let mut game = Game::sample("#####\n##1##\n#####").unwrap();
    game.select(0);
    let mut u = game.units.remove(0).unwrap();
    u.has_attacked = true;
    game.units.insert(0, u);
    game.attack(0, 0);
    assert!(game.undo.is_empty());
    assert_eq!(game.grid.attack_loc, None);
    assert_eq!(game.units.get(0).unwrap().attack, None);
    // no slot 2 either
    let mut v = game.units.remove(0).unwrap();
    v.has_attacked = false;
    game.units.insert(0, v);
    game.attack(0, 2);
    assert!(game.undo.is_empty());
}

#[test]
fn fire_without_aim_changes_nothing() {
    let mut game = Game::sample("1#A").unwrap();
    game.select(0);
    game.fire(0);
    assert!(!game.units.get(0).unwrap().has_attacked);
    assert_eq!(game.units.get(0).unwrap().moves, 3);
    assert_eq!(game.selected_idx, Some(0));
}

#[test]
fn ending_turn_while_aiming_clears_cursor() {
    let mut game = Game::sample("1#A").unwrap();
    game.select(0);
    game.attack(0, 0);
    assert!(game.grid.attack_loc.is_some());
    game.next_team();
    assert_eq!(game.grid.attack_loc, None);
    assert!(game.units.iter().all(|(_, u)| u.attack.is_none()));
    assert_eq!(game.units.iter().filter(|(_, u)| u.selected).count(), 1);
}
