use battlesnake::api::{ApiBattlesnake, ApiBoard, ApiCoord, ApiGame, ApiGameState, ApiRuleset};
use battlesnake::board::Board;
use battlesnake::strategy::candidate_moves;
use battlesnake::types::{Coord, Direction};

fn c(x: i32, y: i32) -> ApiCoord {
    ApiCoord { x, y }
}

fn snake(id: &str, body: &[(i32, i32)], health: i32) -> ApiBattlesnake {
    let body: Vec<ApiCoord> = body.iter().map(|&(x, y)| c(x, y)).collect();
    ApiBattlesnake {
        id: id.to_string(),
        name: id.to_string(),
        health,
        head: body[0],
        length: body.len() as i32,
        body,
        latency: None,
        shout: None,
        customizations: None,
    }
}

fn game(w: i32, h: i32, snakes: Vec<ApiBattlesnake>, you: usize, food: &[(i32, i32)], hazards: &[(i32, i32)]) -> ApiGameState {
    let me = snakes[you].clone();
    ApiGameState {
        game: ApiGame {
            id: "g".to_string(),
            ruleset: ApiRuleset { name: "standard".to_string(), version: None, settings: None },
            map: None,
            timeout: 500,
            source: None,
        },
        turn: 10,
        board: ApiBoard {
            height: h,
            width: w,
            food: food.iter().map(|&(x, y)| c(x, y)).collect(),
            hazards: hazards.iter().map(|&(x, y)| c(x, y)).collect(),
            snakes,
        },
        you: me,
    }
}

/// Me at (3,3) going down to (3,1), a shorter enemy at (5,5), food in two corners.
fn sample() -> Board {
    let me = snake("me", &[(3, 3), (3, 2), (3, 1)], 80);
    let enemy = snake("e", &[(5, 5), (5, 6)], 70);
    Board::new(&game(7, 7, vec![me, enemy], 0, &[(0, 6), (6, 0)], &[(0, 0)]))
}

#[test]
fn board_reads_the_game() {
    let b = sample();
    assert_eq!(b.width, 7);
    assert_eq!(b.height, 7);
    assert_eq!(b.turn, 10);
    assert_eq!(b.timeout, 500);
    assert_eq!(b.hazard_damage, 14);
    assert_eq!(b.my_id, "me");
    assert_eq!(b.my_head, Coord::new(3, 3));
    assert_eq!(b.my_tail, Coord::new(3, 1));
    assert_eq!(b.my_length, 3);
    assert_eq!(b.my_health, 80);
    assert_eq!(b.enemy_heads.len(), 1);
    assert_eq!(b.enemy_heads[0].pos, Coord::new(5, 5));
    assert_eq!(b.all_snakes.len(), 2);
    assert_eq!(b.food, vec![Coord::new(0, 6), Coord::new(6, 0)]);
}

#[test]
fn cell_queries() {
    let b = sample();
    assert!(b.is_in_bounds(6, 6));
    assert!(!b.is_in_bounds(7, 6));
    assert!(!b.is_in_bounds(-1, 0));
    assert!(!b.is_safe(3, 3));
    assert!(b.is_safe(3, 1));
    assert!(b.is_safe(0, 0));
    assert!(!b.is_safe(7, 0));
    assert!(b.is_tail_freeing(3, 1));
    assert!(!b.is_tail_freeing(3, 2));
    assert!(b.is_food(0, 6));
    assert!(!b.is_food(1, 6));
    assert!(b.is_hazard(0, 0));
    assert!(!b.is_hazard(1, 0));
    assert!(!b.is_in_danger_zone(5, 4));
    assert!(b.is_enemy_reachable(5, 4));
    assert!(!b.is_enemy_reachable(4, 4));
}

#[test]
fn danger_zone_of_a_longer_enemy() {
    let me = snake("me", &[(1, 1), (1, 0)], 80);
    let enemy = snake("e", &[(4, 4), (4, 5), (4, 6)], 70);
    let b = Board::new(&game(7, 7, vec![me, enemy], 0, &[], &[]));
    assert!(b.is_in_danger_zone(3, 4));
    assert!(b.is_in_danger_zone(4, 3));
    assert!(!b.is_in_danger_zone(4, 4));
    assert!(b.is_near_dangerous_head(4, 3));
    assert!(!b.can_kill_head_to_head(4, 3));
}

#[test]
fn threats_and_head_to_head() {
    let b = sample();
    assert_eq!(b.enemy_threat_count(4, 5), 1);
    assert_eq!(b.enemy_threat_count(0, 0), 0);
    assert!(!b.is_near_dangerous_head(5, 4));
    assert!(b.can_kill_head_to_head(5, 4));
    assert!(!b.can_kill_head_to_head(0, 0));
}

#[test]
fn flood_fills() {
    let b = sample();
    assert_eq!(b.flood_fill_count(0, 0), 46);
    assert_eq!(b.flood_fill_count(3, 3), 0);
    assert_eq!(b.flood_fill_count(9, 9), 0);
    let r = b.flood_fill_enhanced(0, 0);
    assert_eq!(r.count, 46);
    assert!(r.has_tail_exit);
    assert_eq!(r.food_count, 2);
    assert_eq!(r.exit_count, 0);
    assert_eq!(b.region_exit_count(0, 0), 0);
    let off = b.flood_fill_enhanced(-1, 0);
    assert_eq!(off.count, 0);
    assert!(!off.has_tail_exit);
}

#[test]
fn food_choices() {
    let b = sample();
    assert_eq!(b.manhattan(0, 0, 3, 4), 7);
    let n = b.nearest_food(3, 3).unwrap();
    assert_eq!(n.food, Coord::new(0, 6));
    assert_eq!(n.dist, 6);
    assert_eq!(n.penalty, 0);
    let n2 = b.nearest_food(5, 1).unwrap();
    assert_eq!(n2.food, Coord::new(6, 0));
    assert_eq!(n2.dist, 2);
    let s = b.nearest_safe_food(3, 3).unwrap();
    assert_eq!(s.food, Coord::new(0, 6));
    assert_eq!(s.penalty, 0);
    assert!(!b.is_food_trapped(0, 6));
    assert!(!b.is_food_contested(0, 6));
}

#[test]
fn trapped_and_contested_food() {
    // A longer enemy close to one food.
    let me = snake("me", &[(3, 3), (3, 2), (3, 1)], 80);
    let enemy = snake("e", &[(1, 5), (1, 4), (1, 3), (0, 3)], 70);
    let b = Board::new(&game(7, 7, vec![me, enemy], 0, &[(0, 6), (6, 3)], &[]));
    assert!(b.is_food_contested(0, 6));
    assert!(!b.is_food_contested(6, 3));
    let s = b.nearest_safe_food(3, 3).unwrap();
    assert_eq!(s.food, Coord::new(6, 3));
    assert_eq!(s.dist, 3);
    assert_eq!(s.penalty, 0);
    assert!(b.nearest_food(3, 3).is_some());
    let none = Board::new(&game(7, 7, vec![snake("me", &[(3, 3), (3, 2)], 80)], 0, &[], &[]));
    assert!(none.nearest_food(0, 0).is_none());
    assert!(none.nearest_safe_food(0, 0).is_none());
}

#[test]
fn safe_neighbours_in_order() {
    let b = sample();
    assert_eq!(b.get_safe_neighbors(3, 4), vec![Coord::new(3, 5), Coord::new(2, 4), Coord::new(4, 4)]);
    assert_eq!(b.get_safe_neighbors(0, 0), vec![Coord::new(0, 1), Coord::new(1, 0)]);
}

#[test]
fn trap_status_of_enemies() {
    let b = sample();
    let t = b.enemy_trap_status();
    assert_eq!(t.len(), 1);
    assert_eq!(t[0].0, "e");
    // A head is an occupied cell, so the fill from it reaches nothing.
    assert_eq!(t[0].2, 0);
    assert!(t[0].1);
}

#[test]
fn projected_territory() {
    let b = sample();
    // The enemy head is occupied, so only my side spreads.
    let (mine, total) = b.voronoi_area_projected(3, 4, 0);
    assert_eq!(total, 46);
    assert_eq!(mine, 46);
    let (blocked_start, total2) = b.voronoi_area_projected(3, 3, 0);
    assert_eq!(blocked_start, 0);
    assert_eq!(total2, 0);
}

#[test]
fn mirroring_enemy() {
    let b = sample();
    assert!(b.is_enemy_mirroring(3, 4));
    assert!(!b.is_enemy_mirroring(6, 0));
}

#[test]
fn corridor_entrances() {
    // A pocket along the left edge, walled by an enemy whose tail is stacked.
    let me = snake("me", &[(0, 4), (1, 4), (2, 4)], 80);
    let enemy = snake("e", &[(1, 2), (1, 1), (1, 0), (1, 0)], 70);
    let b = Board::new(&game(5, 5, vec![me, enemy], 0, &[], &[]));
    // The branch that leads back onto the open board runs into a fork; it adds
    // `1 + i32::MAX`, which wraps, so only the short branch down the edge counts.
    assert!(b.is_corridor_entrance(0, 2));
    assert!(b.is_corridor_entrance(0, 0));
    assert!(!b.is_corridor_entrance(3, 1));
    // Walled on all sides, the left column is a dead end shorter than me plus two.
    let me = snake("me", &[(0, 4), (1, 4), (2, 4)], 80);
    let wall = snake("e", &[(1, 3), (1, 2), (1, 1), (1, 0), (1, 0)], 70);
    let closed = Board::new(&game(5, 5, vec![me, wall], 0, &[], &[]));
    assert!(closed.is_corridor_entrance(0, 3));
    assert!(closed.is_corridor_entrance(0, 0));
    let open = sample();
    assert!(!open.is_corridor_entrance(0, 0));
    assert!(!open.is_corridor_entrance(3, 5));
}

#[test]
fn voronoi_breaks_ties_by_queue_order() {
    let me = snake("me", &[(0, 0)], 80);
    let enemy = snake("e", &[(4, 0)], 70);
    let b = Board::new(&game(5, 1, vec![me, enemy], 0, &[], &[]));
    assert_eq!(b.voronoi_area(), (3, 5));
    // Listed first, the enemy wins the tie instead.
    let me2 = snake("me", &[(0, 0)], 80);
    let enemy2 = snake("e", &[(4, 0)], 70);
    let b2 = Board::new(&game(5, 1, vec![enemy2, me2], 1, &[], &[]));
    assert_eq!(b2.voronoi_area(), (2, 5));
    // Starting next to my head: my head is a body cell nobody enters.
    assert_eq!(b2.voronoi_area_from(1, 0), (2, 4));
}

#[test]
fn voronoi_on_the_sample_board() {
    let b = sample();
    let (mine, total) = b.voronoi_area();
    assert_eq!(total, 46);
    assert_eq!(mine, 39);
    let (off_mine, off_total) = b.voronoi_area_from(-1, 0);
    assert_eq!((off_mine, off_total), (0, 45));
}

#[test]
fn candidate_moves_from_my_head() {
    let b = sample();
    assert_eq!(candidate_moves(&b), vec![Direction::Up, Direction::Left, Direction::Right]);
    // Boxed in: the first move that stays on the board is kept.
    let boxed = Board::new(&game(3, 1, vec![snake("me", &[(1, 0), (0, 0), (2, 0), (2, 0)], 80)], 0, &[], &[]));
    assert_eq!(candidate_moves(&boxed), vec![Direction::Left]);
    let tiny = Board::new(&game(1, 1, vec![snake("me", &[(0, 0)], 80)], 0, &[], &[]));
    assert!(candidate_moves(&tiny).is_empty());
}

#[test]
fn danger_zone_is_distance_one_from_longer_heads() {
    let me = snake("me", &[(1, 1), (1, 0)], 80);
    let long = snake("l", &[(4, 4), (4, 5), (4, 6)], 70);
    let short = snake("s", &[(6, 1)], 70);
    let b = Board::new(&game(7, 7, vec![me, long, short], 0, &[], &[]));
    for x in 0..7 {
        for y in 0..7 {
            let near_long = (x - 4i32).abs() + (y - 4i32).abs() == 1;
            let near_short = (x - 6i32).abs() + (y - 1i32).abs() == 1;
            assert_eq!(b.is_in_danger_zone(x, y), near_long);
            assert_eq!(b.is_enemy_reachable(x, y), near_long || near_short);
            assert_eq!(b.enemy_threat_count(x, y), near_long as i32 + near_short as i32);
            assert_eq!(b.enemy_threat_count(x, y) > 0, b.is_enemy_reachable(x, y));
        }
    }
}

#[test]
fn regions_never_have_exits() {
    let b = sample();
    for x in 0..7 {
        for y in 0..7 {
            assert_eq!(b.region_exit_count(x, y), 0);
            assert_eq!(b.flood_fill_enhanced(x, y).exit_count, 0);
        }
    }
}

#[test]
fn projected_territory_with_blocked_heads_is_the_flood_fill() {
    let b = sample();
    for x in 0..7 {
        for y in 0..7 {
            let n = b.flood_fill_count(x, y);
            assert_eq!(b.voronoi_area_projected(x, y, 3), (n, n));
        }
    }
}

#[test]
fn board_skips_segments_off_the_board_and_takes_empty_bodies() {
    let me = snake("me", &[(1, 1), (1, 0)], 80);
    // The last segment's cell index (7 * 7 + 4) lies past the board: it is skipped.
    let long = snake("l", &[(4, 4), (4, 5), (4, 7)], 70);
    let mut ghost = snake("g", &[(2, 5)], 60);
    ghost.body.clear();
    let b = Board::new(&game(7, 7, vec![me, long, ghost], 0, &[], &[]));
    assert!(!b.is_safe(4, 4));
    assert!(!b.is_safe(4, 5));
    assert!(b.is_safe(2, 5));
    assert!(!b.is_tail_freeing(4, 5));
    assert_eq!(b.all_snakes[2].tail, Coord::new(2, 5));
    assert_eq!(b.enemy_heads.len(), 2);
}

#[test]
fn queries_far_off_the_board() {
    let b = sample();
    assert!(b.get_safe_neighbors(i32::MAX - 1, 0).is_empty());
    assert!(b.get_safe_neighbors(i32::MIN + 1, i32::MIN + 1).is_empty());
    assert!(!b.can_kill_head_to_head(i32::MIN, i32::MIN));
    assert!(!b.is_near_dangerous_head(i32::MAX, i32::MAX));
    assert!(b.is_corridor_entrance(i32::MAX - 1, 3));
    assert_eq!(b.manhattan(0, 0, i32::MAX, 0), i32::MAX);
}
