use battlesnake::api::{ApiBattlesnake, ApiBoard, ApiCoord, ApiGame, ApiGameState, ApiRuleset, ApiRulesetSettings};
use battlesnake::simulator::{fnv_hash, SimState, SnakeState, MAX_SNAKES};
use battlesnake::types::Direction;

fn c(x: i32, y: i32) -> ApiCoord {
    ApiCoord { x, y }
}

fn snake(id: &str, body: &[(i32, i32)], health: i32) -> ApiBattlesnake {
    let body: Vec<ApiCoord> = body.iter().map(|&(x, y)| c(x, y)).collect();
    ApiBattlesnake {
        id: id.to_string(),
        name: id.to_string(),
        health,
        head: body[0],
        length: body.len() as i32,
        body,
        latency: None,
        shout: None,
        customizations: None,
    }
}

fn game(w: i32, h: i32, snakes: Vec<ApiBattlesnake>, you: usize, food: &[(i32, i32)], hazards: &[(i32, i32)], damage: Option<i32>) -> ApiGameState {
    let me = snakes[you].clone();
    ApiGameState {
        game: ApiGame {
            id: "g".to_string(),
            ruleset: ApiRuleset {
                name: "standard".to_string(),
                version: None,
                settings: Some(ApiRulesetSettings { food_spawn_chance: None, minimum_food: None, hazard_damage_per_turn: damage }),
            },
            map: None,
            timeout: 500,
            source: None,
        },
        turn: 3,
        board: ApiBoard {
            height: h,
            width: w,
            food: food.iter().map(|&(x, y)| c(x, y)).collect(),
            hazards: hazards.iter().map(|&(x, y)| c(x, y)).collect(),
            snakes,
        },
        you: me,
    }
}

fn moves_for(pairs: &[(usize, Direction)]) -> [Option<Direction>; MAX_SNAKES] {
    let mut m = [None; MAX_SNAKES];
    for &(i, d) in pairs {
        m[i] = Some(d);
    }
    m
}

#[test]
fn from_api_reads_snakes_and_cells() {
    let gs = game(5, 5, vec![snake("a", &[(2, 2), (2, 1), (2, 0)], 90), snake("b", &[(0, 4), (1, 4)], 50)], 1, &[(4, 4)], &[(0, 0)], Some(7));
    let st = SimState::from_api(&gs);
    assert_eq!(st.width, 5);
    assert_eq!(st.height, 5);
    assert_eq!(st.turn, 3);
    assert_eq!(st.num_snakes, 2);
    assert_eq!(st.my_idx, 1);
    assert_eq!(st.hazard_damage, 7);
    assert_eq!(st.food, 1u128 << 24);
    assert_eq!(st.hazards, 1u128);
    assert_eq!(st.snakes[0].head(), 12);
    assert_eq!(st.snakes[0].tail(), 2);
    assert_eq!(st.snakes[0].len, 3);
    assert_eq!(st.snakes[1].health, 50);
    // Tails that are not stacked are left out of the occupied cells.
    assert_eq!(st.all_bodies, (1u128 << 12) | (1u128 << 7) | (1u128 << 20));
}

#[test]
fn hazard_damage_defaults_to_fourteen() {
    let gs = game(5, 5, vec![snake("a", &[(2, 2), (2, 1)], 90)], 0, &[], &[], None);
    assert_eq!(SimState::from_api(&gs).hazard_damage, 14);
}

#[test]
fn valid_moves_in_a_corner() {
    let gs = game(5, 5, vec![snake("a", &[(0, 0), (1, 0), (2, 0)], 90)], 0, &[], &[], None);
    let st = SimState::from_api(&gs);
    let v = st.get_valid_moves(0);
    assert_eq!(v, [Some(Direction::Up), None, None, None]);
}

#[test]
fn moving_onto_food_grows_and_heals() {
    let gs = game(5, 5, vec![snake("a", &[(2, 2), (2, 1), (2, 0)], 40)], 0, &[(2, 3)], &[], None);
    let st = SimState::from_api(&gs);
    let next = st.advance(&moves_for(&[(0, Direction::Up)]));
    assert!(next.snakes[0].alive);
    assert_eq!(next.snakes[0].len, 4);
    assert_eq!(next.snakes[0].health, 100);
    assert_eq!(next.snakes[0].head(), 17);
    assert_eq!(next.food, 0);
    assert_eq!(next.turn, 4);
}

#[test]
fn moving_without_food_costs_health() {
    let gs = game(5, 5, vec![snake("a", &[(2, 2), (2, 1), (2, 0)], 40)], 0, &[], &[], None);
    let st = SimState::from_api(&gs);
    let next = st.advance(&moves_for(&[(0, Direction::Left)]));
    assert!(next.snakes[0].alive);
    assert_eq!(next.snakes[0].len, 3);
    assert_eq!(next.snakes[0].health, 39);
    assert_eq!(next.snakes[0].head(), 11);
}

#[test]
fn leaving_the_board_kills() {
    let gs = game(5, 5, vec![snake("a", &[(0, 2), (1, 2), (2, 2)], 40)], 0, &[], &[], None);
    let st = SimState::from_api(&gs);
    let next = st.advance(&moves_for(&[(0, Direction::Left)]));
    assert!(!next.snakes[0].alive);
    assert!(!next.is_alive(0));
}

#[test]
fn starving_kills() {
    let gs = game(5, 5, vec![snake("a", &[(2, 2), (2, 1), (2, 0)], 1)], 0, &[], &[], None);
    let st = SimState::from_api(&gs);
    let next = st.advance(&moves_for(&[(0, Direction::Up)]));
    assert!(!next.snakes[0].alive);
}

#[test]
fn hazards_hurt() {
    let gs = game(5, 5, vec![snake("a", &[(2, 2), (2, 1), (2, 0)], 50)], 0, &[], &[(2, 3)], Some(10));
    let st = SimState::from_api(&gs);
    let next = st.advance(&moves_for(&[(0, Direction::Up)]));
    assert!(next.snakes[0].alive);
    assert_eq!(next.snakes[0].health, 39);
}

#[test]
fn head_to_head_longer_wins() {
    let a = snake("a", &[(1, 2), (0, 2), (0, 1)], 90);
    let b = snake("b", &[(3, 2), (4, 2)], 90);
    let gs = game(5, 5, vec![a, b], 0, &[], &[], None);
    let st = SimState::from_api(&gs);
    let next = st.advance(&moves_for(&[(0, Direction::Right), (1, Direction::Left)]));
    assert!(next.snakes[0].alive);
    assert!(!next.snakes[1].alive);
    assert!(next.is_game_over());
}

#[test]
fn head_to_head_equal_both_die() {
    let a = snake("a", &[(1, 2), (0, 2)], 90);
    let b = snake("b", &[(3, 2), (4, 2)], 90);
    let gs = game(5, 5, vec![a, b], 0, &[], &[], None);
    let st = SimState::from_api(&gs);
    let next = st.advance(&moves_for(&[(0, Direction::Right), (1, Direction::Left)]));
    assert!(!next.snakes[0].alive);
    assert!(!next.snakes[1].alive);
}

#[test]
fn running_into_a_body_kills() {
    let a = snake("a", &[(1, 2), (0, 2)], 90);
    let b = snake("b", &[(2, 3), (2, 2), (2, 1)], 90);
    let gs = game(5, 5, vec![a, b], 0, &[], &[], None);
    let st = SimState::from_api(&gs);
    let next = st.advance(&moves_for(&[(0, Direction::Right), (1, Direction::Up)]));
    assert!(!next.snakes[0].alive);
    assert!(next.snakes[1].alive);
    assert_eq!(next.alive_enemy_count(), 1);
}

#[test]
fn dead_snakes_stay_dead() {
    let gs = game(5, 5, vec![snake("a", &[(0, 2), (1, 2)], 40), snake("b", &[(4, 4), (4, 3)], 40)], 1, &[], &[], None);
    let st = SimState::from_api(&gs);
    let next = st.advance(&moves_for(&[(0, Direction::Left), (1, Direction::Left)]));
    assert!(!next.snakes[0].alive);
    let after = next.advance(&moves_for(&[(0, Direction::Right), (1, Direction::Down)]));
    assert!(!after.snakes[0].alive);
    assert_eq!(after.snakes[0].head(), next.snakes[0].head());
}

#[test]
fn game_over_and_enemy_count() {
    let gs = game(7, 7, vec![snake("a", &[(1, 1), (1, 0)], 90), snake("b", &[(5, 5), (5, 6)], 90), snake("c", &[(3, 3), (3, 4)], 90)], 0, &[], &[], None);
    let st = SimState::from_api(&gs);
    assert!(!st.is_game_over());
    assert_eq!(st.alive_enemy_count(), 2);
    assert!(st.is_alive(2));
    assert!(!st.is_alive(3));
}

#[test]
fn moving_tails_are_free() {
    let gs = game(5, 5, vec![snake("a", &[(2, 2), (2, 1), (2, 0)], 90), snake("b", &[(0, 0), (0, 1), (0, 1)], 90)], 0, &[], &[], None);
    let st = SimState::from_api(&gs);
    assert_eq!(st.moving_tails_bb(), 1u128 << 2);
}

#[test]
fn fnv_hash_known_values() {
    assert_eq!(fnv_hash(""), 0xcbf29ce484222325);
    assert_eq!(fnv_hash("a"), 0xaf63dc4c8601ec8c);
}

#[test]
fn snake_ring_buffer() {
    let mut s = SnakeState { health: 100, body: [0u8; 128], head_ptr: 0, len: 0, alive: true, id_hash: 0, is_my_snake: false };
    s.push_head(5);
    s.push_head(6);
    s.push_head(7);
    assert_eq!(s.len, 3);
    assert_eq!(s.head(), 7);
    assert_eq!(s.tail(), 5);
    assert_eq!(s.penultimate(), 6);
    assert!(!s.tail_is_stacked());
    assert_eq!(s.pop_tail(), 5);
    assert_eq!(s.len, 2);
    assert_eq!(s.tail(), 6);
    assert_eq!(s.current_direction(11), Some(Direction::Right));
    s.push_head(18);
    assert_eq!(s.current_direction(11), Some(Direction::Up));
}

#[test]
fn nearest_food_distance_finds_minimum() {
    let gs = game(7, 7, vec![snake("a", &[(0, 0), (0, 1)], 90)], 0, &[(6, 6), (3, 1)], &[], None);
    let st = SimState::from_api(&gs);
    assert_eq!(st.nearest_food_distance(0, 0), Some(4));
    let none = game(7, 7, vec![snake("a", &[(0, 0), (0, 1)], 90)], 0, &[], &[], None);
    assert_eq!(SimState::from_api(&none).nearest_food_distance(0, 0), None);
}

#[test]
fn enemy_move_features_describe_each_valid_move() {
    let me = snake("me", &[(4, 4), (4, 5)], 90);
    let enemy = snake("e", &[(2, 2), (1, 2), (0, 2)], 90);
    let gs = game(7, 7, vec![me, enemy], 0, &[(3, 2)], &[], None);
    let st = SimState::from_api(&gs);
    let f = st.enemy_move_features(1);
    let dirs: Vec<Direction> = f.iter().map(|m| m.dir).collect();
    assert_eq!(dirs, vec![Direction::Up, Direction::Down, Direction::Right]);
    let right = f[2];
    assert!(right.onto_food);
    assert_eq!(right.nearest_food, Some(0));
    assert_eq!(right.dist_to_me, 3);
    assert!(right.keeps_direction);
    assert_eq!(right.open_neighbors, 3);
    let up = f[0];
    assert!(!up.onto_food);
    assert_eq!(up.nearest_food, Some(2));
    assert!(!up.keeps_direction);
    assert_eq!(up.open_neighbors, 3);
    assert!(st.enemy_move_features(5).is_empty());
}

#[test]
fn a_turn_without_deaths_keeps_occupancy_exact() {
    let gs = game(5, 5, vec![snake("a", &[(2, 2), (2, 1), (2, 0)], 90), snake("b", &[(4, 4), (4, 3)], 90)], 0, &[], &[], None);
    let st = SimState::from_api(&gs);
    let next = st.advance(&moves_for(&[(0, Direction::Up), (1, Direction::Left)]));
    assert!(next.snakes[0].alive && next.snakes[1].alive);
    let expected = (1u128 << 17) | (1u128 << 12) | (1u128 << 7) | (1u128 << 23) | (1u128 << 24);
    assert_eq!(next.all_bodies, expected);
}

#[test]
fn calm_admits_healing_hazards_within_range() {
    let healing = game(5, 5, vec![snake("a", &[(2, 2), (2, 1), (2, 0)], 90)], 0, &[], &[(2, 3)], Some(-5));
    assert!(SimState::from_api(&healing).calm_for(30));
    let strong = game(5, 5, vec![snake("a", &[(2, 2), (2, 1), (2, 0)], 90)], 0, &[], &[(2, 3)], Some(-2000));
    let st = SimState::from_api(&strong);
    assert!(!st.calm_for(30));
    assert!(st.calm_for(10));
    let hurting = game(5, 5, vec![snake("a", &[(2, 2), (2, 1), (2, 0)], 90)], 0, &[], &[(2, 3)], Some(14));
    assert!(SimState::from_api(&hurting).calm_for(30));
    let next = SimState::from_api(&healing).advance(&moves_for(&[(0, Direction::Up)]));
    assert_eq!(next.snakes[0].health, 94);
}

#[test]
fn a_short_snake_has_no_direction_whatever_its_pointer() {
    let s = SnakeState { health: 100, body: [0u8; 128], head_ptr: 200, len: 1, alive: true, id_hash: 0, is_my_snake: false };
    assert_eq!(s.current_direction(11), None);
}
