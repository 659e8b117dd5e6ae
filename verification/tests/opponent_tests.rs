use battlesnake::api::{ApiBattlesnake, ApiBoard, ApiCoord, ApiGame, ApiGameState, ApiRuleset};
use battlesnake::opponent::{observe_moves, GameTracker};

fn c(x: i32, y: i32) -> ApiCoord {
    ApiCoord { x, y }
}

fn snake(id: &str, body: &[(i32, i32)]) -> ApiBattlesnake {
    let body: Vec<ApiCoord> = body.iter().map(|&(x, y)| c(x, y)).collect();
    ApiBattlesnake {
        id: id.to_string(),
        name: format!("{}-name", id),
        health: 90,
        head: body[0],
        length: body.len() as i32,
        body,
        latency: None,
        shout: None,
        customizations: None,
    }
}

fn game(snakes: Vec<ApiBattlesnake>, food: &[(i32, i32)]) -> ApiGameState {
    let me = snakes[0].clone();
    ApiGameState {
        game: ApiGame {
            id: "game-1".to_string(),
            ruleset: ApiRuleset { name: "standard".to_string(), version: None, settings: None },
            map: None,
            timeout: 500,
            source: None,
        },
        turn: 0,
        board: ApiBoard { height: 11, width: 11, food: food.iter().map(|&(x, y)| c(x, y)).collect(), hazards: vec![], snakes },
        you: me,
    }
}

#[test]
fn territory_collapses_after_three_falls() {
    let gs = game(vec![snake("me", &[(1, 1), (1, 0)])], &[]);
    let mut t = GameTracker::new(&gs);
    assert_eq!(t.game_id, "game-1");
    assert!(t.prev_state.is_none());
    t.record_voronoi(40);
    assert_eq!(t.territory_shrinking_turns, 0);
    t.record_voronoi(35);
    t.record_voronoi(30);
    assert!(!t.is_territory_collapsing());
    t.record_voronoi(29);
    assert_eq!(t.territory_shrinking_turns, 3);
    assert!(t.is_territory_collapsing());
    t.record_voronoi(29);
    assert_eq!(t.territory_shrinking_turns, 0);
    assert!(!t.is_territory_collapsing());
}

#[test]
fn history_keeps_the_last_ten() {
    let gs = game(vec![snake("me", &[(1, 1), (1, 0)])], &[]);
    let mut t = GameTracker::new(&gs);
    for a in 0..12 {
        t.record_voronoi(a);
    }
    assert_eq!(t.voronoi_history, (2..12).collect::<Vec<i32>>());
    assert_eq!(t.territory_shrinking_turns, 0);
}

#[test]
fn observing_enemy_moves() {
    let prev = game(
        vec![snake("me", &[(5, 5), (5, 4)]), snake("a", &[(1, 1), (1, 0)]), snake("b", &[(9, 9), (9, 10)])],
        &[(3, 1)],
    );
    let curr = game(
        vec![snake("me", &[(5, 6), (5, 5)]), snake("b", &[(10, 9), (9, 9)]), snake("a", &[(2, 1), (1, 1)]), snake("new", &[(0, 0), (0, 1)])],
        &[],
    );
    let obs = observe_moves(&prev, &curr);
    assert_eq!(obs.len(), 2);
    assert_eq!(obs[0].snake_id, "b");
    assert_eq!(obs[0].snake_name, "b-name");
    assert!(!obs[0].moved_toward_food);
    assert!(!obs[0].moved_toward_us);
    assert!(obs[0].chose_safe_move);
    assert_eq!(obs[1].snake_id, "a");
    assert!(obs[1].moved_toward_food);
    assert!(obs[1].moved_toward_us);
    assert!(obs[1].chose_safe_move);
}

#[test]
fn leaving_the_board_is_not_safe() {
    let prev = game(vec![snake("me", &[(5, 5), (5, 4)]), snake("a", &[(0, 3), (1, 3)])], &[]);
    let curr = game(vec![snake("me", &[(5, 6), (5, 5)]), snake("a", &[(-1, 3), (0, 3)])], &[]);
    let obs = observe_moves(&prev, &curr);
    assert_eq!(obs.len(), 1);
    assert!(!obs[0].chose_safe_move);
    assert!(!obs[0].moved_toward_food);
    assert!(!obs[0].moved_toward_us);
}

#[test]
fn record_turn_compares_with_the_previous_turn() {
    let first = game(vec![snake("me", &[(5, 5), (5, 4)]), snake("a", &[(1, 1), (1, 0)])], &[]);
    let second = game(vec![snake("me", &[(5, 6), (5, 5)]), snake("a", &[(2, 1), (1, 1)])], &[]);
    let mut t = GameTracker::new(&first);
    assert!(t.record_turn(first.clone()).is_empty());
    let obs = t.record_turn(second);
    assert_eq!(obs.len(), 1);
    assert!(obs[0].moved_toward_us);
    assert_eq!(t.prev_state.as_ref().unwrap().board.snakes[0].head.y, 6);
}
