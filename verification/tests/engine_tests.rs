use battlesnake::api::{ApiBattlesnake, ApiBoard, ApiCoord, ApiGame, ApiGameState, ApiRuleset};
use battlesnake::heuristic::{eval_mode, exit_count, flood_fill_area, EvalMode};
use battlesnake::opponent::GameTracker;
use battlesnake::minimax::{hash_state, is_noisy, order_moves, HistoryTable, KillerTable, TranspositionTable, MAX_DEPTH, TT_SIZE};
use battlesnake::simulator::{SimState, MAX_SNAKES};
use battlesnake::strategy::{determine_aggression_mode, random_move, rollout_survives, AggressionMode};
use battlesnake::territory::{area_control_counts, race_territory};
use battlesnake::types::Direction;

fn c(x: i32, y: i32) -> ApiCoord {
    ApiCoord { x, y }
}

fn snake(id: &str, body: &[(i32, i32)], health: i32) -> ApiBattlesnake {
    let body: Vec<ApiCoord> = body.iter().map(|&(x, y)| c(x, y)).collect();
    ApiBattlesnake {
        id: id.to_string(),
        name: id.to_string(),
        health,
        head: body[0],
        length: body.len() as i32,
        body,
        latency: None,
        shout: None,
        customizations: None,
    }
}

fn state(w: i32, h: i32, snakes: Vec<ApiBattlesnake>, food: &[(i32, i32)]) -> SimState {
    let me = snakes[0].clone();
    let gs = ApiGameState {
        game: ApiGame {
            id: "g".to_string(),
            ruleset: ApiRuleset { name: "standard".to_string(), version: None, settings: None },
            map: None,
            timeout: 500,
            source: None,
        },
        turn: 0,
        board: ApiBoard {
            height: h,
            width: w,
            food: food.iter().map(|&(x, y)| c(x, y)).collect(),
            hazards: vec![],
            snakes,
        },
        you: me,
    };
    SimState::from_api(&gs)
}

#[test]
fn flood_fill_area_counts_passable_cells() {
    let st = state(5, 5, vec![snake("a", &[(2, 2), (2, 1), (2, 0)], 90)], &[]);
    assert_eq!(flood_fill_area(&st, 0), 23);
    // The head is occupied: nothing is reached from it.
    assert_eq!(flood_fill_area(&st, 12), 0);
    // The moving tail is passable.
    assert_eq!(flood_fill_area(&st, 2), 23);
}

#[test]
fn flood_fill_area_of_a_pocket() {
    // A wall of snake body along column 1 of a 3 x 3 board, tail stacked.
    let st = state(3, 3, vec![snake("a", &[(1, 2), (1, 1), (1, 0), (1, 0)], 90)], &[]);
    assert_eq!(flood_fill_area(&st, 0), 3);
    assert_eq!(flood_fill_area(&st, 8), 3);
}

#[test]
fn exits_two_steps_ahead() {
    let st = state(5, 5, vec![snake("a", &[(0, 0), (1, 0), (2, 0)], 90)], &[]);
    assert_eq!(exit_count(&st, 0), 2);
    let open = state(5, 5, vec![snake("a", &[(2, 2), (2, 1), (2, 0)], 90)], &[]);
    // Up (2,3): 3 exits; left (1,2): 3; right (3,2): 3.
    assert_eq!(exit_count(&open, 0), 9);
}

#[test]
fn evaluation_stance() {
    assert_eq!(eval_mode(20, 10, 3, 1, 50, 10), EvalMode::Survival);
    assert_eq!(eval_mode(90, 10, 5, 3, 40, 20), EvalMode::Pressure);
    assert_eq!(eval_mode(90, 9, 5, 3, 40, 20), EvalMode::Survival);
    assert_eq!(eval_mode(90, 8, 5, 1, 20, 10), EvalMode::Kill);
    assert_eq!(eval_mode(90, 8, 5, 1, 12, 10), EvalMode::Pressure);
    assert_eq!(eval_mode(90, 5, 5, 2, 0, 20), EvalMode::Survival);
    assert_eq!(eval_mode(90, 5, 5, 2, 10, 20), EvalMode::Pressure);
    // Very long enemies are fine where the rule for few enemies is not reached.
    assert_eq!(eval_mode(20, 10, 255, 1, 50, 10), EvalMode::Survival);
    assert_eq!(eval_mode(90, 10, 255, 3, 40, 20), EvalMode::Survival);
}

#[test]
fn aggression_modes() {
    let gs = ApiGameState {
        game: ApiGame {
            id: "g".to_string(),
            ruleset: ApiRuleset { name: "standard".to_string(), version: None, settings: None },
            map: None,
            timeout: 500,
            source: None,
        },
        turn: 0,
        board: ApiBoard { height: 5, width: 5, food: vec![], hazards: vec![], snakes: vec![snake("a", &[(0, 0)], 90)] },
        you: snake("a", &[(0, 0)], 90),
    };
    let mut collapsing = GameTracker::new(&gs);
    for a in [40, 30, 20, 10] {
        collapsing.record_voronoi(a);
    }
    assert!(collapsing.is_territory_collapsing());
    let steady = GameTracker::new(&gs);
    assert_eq!(determine_aggression_mode(5, 5, 90, 10, 40, false, 1, Some(&steady)), AggressionMode::Pressure);
    assert_eq!(determine_aggression_mode(10, 5, 19, 50, 10, true, 1, None), AggressionMode::Survival);
    assert_eq!(determine_aggression_mode(5, 5, 90, 0, 100, true, 1, None), AggressionMode::Kill);
    assert_eq!(determine_aggression_mode(9, 5, 90, 0, 100, true, 3, None), AggressionMode::Kill);
    assert_eq!(determine_aggression_mode(4, 5, 90, 0, 100, false, 3, None), AggressionMode::Survival);
    assert_eq!(determine_aggression_mode(8, 5, 90, 50, 40, false, 1, None), AggressionMode::Kill);
    assert_eq!(determine_aggression_mode(5, 5, 90, 10, 40, false, 1, Some(&collapsing)), AggressionMode::CutOff);
    assert_eq!(determine_aggression_mode(6, 5, 90, 20, 40, false, 1, None), AggressionMode::Pressure);
    assert_eq!(determine_aggression_mode(4, 5, 90, 20, 40, false, 1, None), AggressionMode::Survival);
    assert_eq!(determine_aggression_mode(5, 5, 90, 20, 40, false, 2, None), AggressionMode::Pressure);
}

#[test]
fn random_move_is_valid() {
    let st = state(5, 5, vec![snake("a", &[(0, 0), (1, 0), (2, 0)], 90)], &[]);
    for _ in 0..20 {
        assert_eq!(random_move(&st, 0), Direction::Up);
    }
    let open = state(5, 5, vec![snake("a", &[(2, 2), (2, 1), (2, 0)], 90)], &[]);
    for _ in 0..20 {
        let d = random_move(&open, 0);
        assert_ne!(d, Direction::Down);
    }
    // A snake with no valid move gets `Up`.
    let boxed = state(1, 2, vec![snake("a", &[(0, 0), (0, 1)], 90)], &[]);
    assert_eq!(random_move(&boxed, 0), Direction::Up);
    assert_eq!(random_move(&boxed, 3), Direction::Up);
}

#[test]
fn rollouts() {
    let st = state(5, 5, vec![snake("a", &[(0, 0), (1, 0), (2, 0)], 90)], &[]);
    assert!(!rollout_survives(&st, Direction::Left, 10));
    assert!(!rollout_survives(&st, Direction::Right, 10));
    // Alone on the board, the game is over after the first turn.
    assert!(rollout_survives(&st, Direction::Up, 10));
    assert!(rollout_survives(&st, Direction::Up, 0));
    let starving = state(5, 5, vec![snake("a", &[(2, 2), (2, 1)], 1)], &[]);
    assert!(!rollout_survives(&starving, Direction::Up, 3));
}

#[test]
fn killer_moves() {
    let mut k = KillerTable::new();
    assert_eq!(k.get(0), [None, None]);
    k.store(0, Direction::Up);
    k.store(0, Direction::Up);
    assert_eq!(k.get(0), [Some(Direction::Up), None]);
    k.store(0, Direction::Left);
    assert_eq!(k.get(0), [Some(Direction::Left), Some(Direction::Up)]);
    k.store(MAX_DEPTH, Direction::Left);
    assert_eq!(k.get(MAX_DEPTH), [None, None]);
}

#[test]
fn history_scores() {
    let mut h = HistoryTable::new();
    h.add(5, Direction::Right, 3);
    h.add(5, Direction::Right, 2);
    assert_eq!(h.get(5, Direction::Right), 13);
    assert_eq!(h.get(5, Direction::Left), 0);
    h.add(200, Direction::Up, 4);
    assert_eq!(h.get(200, Direction::Up), 0);
}

#[test]
fn state_hashes() {
    let a = state(5, 5, vec![snake("a", &[(2, 2), (2, 1)], 90)], &[(0, 0)]);
    let b = state(5, 5, vec![snake("a", &[(2, 2), (2, 1)], 90)], &[(0, 0)]);
    assert_eq!(hash_state(&a), hash_state(&b));
    let mut moves = [None; MAX_SNAKES];
    moves[0] = Some(Direction::Up);
    let next = a.advance(&moves);
    assert_ne!(hash_state(&a), hash_state(&next));
}

#[test]
fn territory_race_between_two_heads() {
    // Snakes of length one leave their head cell free, so both fronts spread.
    let st = state(5, 1, vec![snake("a", &[(0, 0)], 90), snake("b", &[(4, 0)], 90)], &[]);
    let (owned, contested) = race_territory(&st);
    assert_eq!(owned[0].0, 0b00011);
    assert_eq!(owned[1].0, 0b11000);
    assert_eq!(contested.0, 0b00100);
    assert_eq!(area_control_counts(&st, 0, &[1]), (2, 2, 1));
    let st3 = state(6, 1, vec![snake("a", &[(0, 0)], 90), snake("b", &[(5, 0)], 90)], &[]);
    assert_eq!(area_control_counts(&st3, 0, &[1]), (3, 3, 0));
}

#[test]
fn territory_of_occupied_heads_is_empty() {
    let st = state(5, 5, vec![snake("a", &[(0, 0), (0, 1)], 90), snake("b", &[(4, 4), (4, 3)], 90)], &[]);
    assert_eq!(area_control_counts(&st, 0, &[1]), (0, 0, 0));
    assert_eq!(area_control_counts(&st, 0, &[]), (0, 0, 0));
}

#[test]
fn noisy_positions() {
    // An enemy head two steps away.
    let near = state(7, 7, vec![snake("a", &[(2, 2), (2, 1)], 90), snake("b", &[(3, 3), (3, 4)], 90)], &[]);
    assert!(is_noisy(&near));
    // Food next to my head.
    let food = state(7, 7, vec![snake("a", &[(2, 2), (2, 1)], 90), snake("b", &[(6, 6), (6, 5)], 90)], &[(1, 2)]);
    assert!(is_noisy(&food));
    // A single way out of a corner.
    let corner = state(7, 7, vec![snake("a", &[(0, 0), (1, 0), (2, 0)], 90), snake("b", &[(6, 6), (6, 5)], 90)], &[]);
    assert!(is_noisy(&corner));
    let calm = state(7, 7, vec![snake("a", &[(2, 2), (2, 1)], 90), snake("b", &[(6, 6), (6, 5)], 90)], &[]);
    assert!(!is_noisy(&calm));
}

#[test]
fn move_ordering() {
    let moves = vec![Direction::Up, Direction::Down, Direction::Left, Direction::Right];
    let mut h = HistoryTable::new();
    h.add(10, Direction::Left, 3);
    h.add(10, Direction::Down, 2);
    // No hints: history scores decide, ties keep their order.
    assert_eq!(order_moves(&moves, &h, 10, [None, None], None), vec![Direction::Left, Direction::Down, Direction::Up, Direction::Right]);
    // The stored best move first, then the killers.
    assert_eq!(
        order_moves(&moves, &h, 10, [Some(Direction::Up), Some(Direction::Right)], Some(Direction::Down)),
        vec![Direction::Down, Direction::Up, Direction::Right, Direction::Left]
    );
    // Past the table, only the hints count.
    assert_eq!(order_moves(&moves, &h, 200, [None, Some(Direction::Right)], None), vec![Direction::Right, Direction::Up, Direction::Down, Direction::Left]);
}

#[test]
fn transposition_table() {
    let mut tt = TranspositionTable::new();
    tt.new_search();
    assert!(tt.probe(42).is_none());
    tt.store(42, 7, 3, 1, 0);
    let e = tt.probe(42).unwrap();
    assert_eq!((e.hash, e.score_bits, e.depth, e.best_move, e.flag, e.generation), (42, 7, 3, 1, 0, 1));
    // A shallower result for the same position does not replace a deeper one.
    tt.store(42, 9, 2, 2, 1);
    assert_eq!(tt.probe(42).unwrap().score_bits, 7);
    // A colliding position takes the slot.
    let other = 42 + TT_SIZE as u64;
    tt.store(other, 5, 1, 0, 2);
    assert!(tt.probe(42).is_none());
    assert_eq!(tt.probe(other).unwrap().score_bits, 5);
    // Depth zero is never found, and results of an earlier search expire.
    tt.store(100, 1, 0, 0, 0);
    assert!(tt.probe(100).is_none());
    tt.new_search();
    assert!(tt.probe(other).is_none());
}
