//! The integer decisions of move selection: the aggression mode, and random
//! play-outs of the simulator.
use vstd::prelude::*;
use rand::Rng;
use crate::simulator::{SimState, MAX_SNAKES, lemma_cell_in_word};
use crate::board::Board;
use crate::opponent::{GameTracker, COLLAPSE_TURNS};
use crate::bitboard::cell_index;
use crate::types::{dir_dx, dir_dy};
use crate::types::{Direction, dir_of_index, dir_index};

verus! {

/// How boldly to play this turn.
#[derive(Debug, PartialEq, Eq, Clone, Copy, Structural)]
pub enum AggressionMode {
    Survival,
    Pressure,
    Kill,
    CutOff,
}

/// The mode for the given situation; `territory_collapsing` says whether my
/// territory has shrunk three turns in a row (as the game tracker reports).
pub open spec fn aggression_mode_spec(
    my_len: int,
    max_enemy_len: int,
    my_health: int,
    my_voronoi: int,
    enemy_voronoi: int,
    any_enemy_trapped: bool,
    num_enemies: int,
    territory_collapsing: bool,
) -> AggressionMode {
    if my_health < 20 {
        AggressionMode::Survival
    } else if any_enemy_trapped && my_len >= max_enemy_len {
        AggressionMode::Kill
    } else if num_enemies >= 3 {
        if any_enemy_trapped && my_len > max_enemy_len + 2 {
            AggressionMode::Kill
        } else {
            AggressionMode::Survival
        }
    } else if my_len > max_enemy_len + 2 && my_voronoi > enemy_voronoi {
        AggressionMode::Kill
    } else if territory_collapsing && my_len >= max_enemy_len {
        AggressionMode::CutOff
    } else if my_len > max_enemy_len && my_voronoi >= enemy_voronoi / 2 {
        AggressionMode::Pressure
    } else if my_len < max_enemy_len {
        AggressionMode::Survival
    } else {
        AggressionMode::Pressure
    }
}

/// The rules of the aggression mode: below 20 health it is always survival; among
/// three or more enemies with none trapped it is survival too; and a kill is only
/// chosen against a trapped enemy I am at least as long as, or, against at most two
/// enemies, when I am more than two longer and hold more territory.
pub proof fn lemma_aggression_mode_rules(
    my_len: int,
    max_enemy_len: int,
    my_health: int,
    my_voronoi: int,
    enemy_voronoi: int,
    any_enemy_trapped: bool,
    num_enemies: int,
    territory_collapsing: bool,
)
    ensures
        ({
            let m = aggression_mode_spec(
                my_len,
                max_enemy_len,
                my_health,
                my_voronoi,
                enemy_voronoi,
                any_enemy_trapped,
                num_enemies,
                territory_collapsing,
            );
            &&& my_health < 20 ==> m == AggressionMode::Survival
            &&& my_health >= 20 && num_enemies >= 3 && !any_enemy_trapped ==> m == AggressionMode::Survival
            &&& m == AggressionMode::Kill ==> (any_enemy_trapped && my_len >= max_enemy_len) || (num_enemies < 3
                && my_len > max_enemy_len + 2 && my_voronoi > enemy_voronoi)
            &&& m == AggressionMode::CutOff ==> territory_collapsing && my_len >= max_enemy_len && num_enemies < 3
                && my_health >= 20
            &&& m == AggressionMode::Pressure ==> my_len >= max_enemy_len && num_enemies < 3 && my_health >= 20
            &&& my_health >= 20 && any_enemy_trapped && my_len >= max_enemy_len ==> m == AggressionMode::Kill
        }),
{
}

/// Chooses the aggression mode; whether my territory is collapsing comes from the
/// game tracker, when there is one.
pub fn determine_aggression_mode(
    my_len: i32,
    max_enemy_len: i32,
    my_health: i32,
    my_voronoi: i32,
    enemy_voronoi: i32,
    any_enemy_trapped: bool,
    num_enemies: usize,
    tracker: Option<&GameTracker>,
) -> (m: AggressionMode)
    requires
        max_enemy_len <= i32::MAX - 2,
    ensures
        m == aggression_mode_spec(
            my_len as int,
            max_enemy_len as int,
            my_health as int,
            my_voronoi as int,
            enemy_voronoi as int,
            any_enemy_trapped,
            num_enemies as int,
            match tracker {
                Some(t) => t.territory_shrinking_turns >= COLLAPSE_TURNS,
                None => false,
            },
        ),
        my_health < 20 ==> m == AggressionMode::Survival,
        my_health >= 20 && num_enemies >= 3 && !any_enemy_trapped ==> m == AggressionMode::Survival,
        m == AggressionMode::Kill ==> (any_enemy_trapped && my_len >= max_enemy_len) || (num_enemies < 3
            && my_len > max_enemy_len + 2 && my_voronoi > enemy_voronoi),
{
    proof {
        lemma_aggression_mode_rules(
            my_len as int,
            max_enemy_len as int,
            my_health as int,
            my_voronoi as int,
            enemy_voronoi as int,
            any_enemy_trapped,
            num_enemies as int,
            match tracker {
                Some(t) => t.territory_shrinking_turns >= COLLAPSE_TURNS,
                None => false,
            },
        );
    }
    let territory_collapsing = match tracker {
        Some(t) => t.is_territory_collapsing(),
        None => false,
    };
    if my_health < 20 {
        return AggressionMode::Survival;
    }
    if any_enemy_trapped && my_len >= max_enemy_len {
        return AggressionMode::Kill;
    }
    if num_enemies >= 3 {
        if any_enemy_trapped && my_len > max_enemy_len + 2 {
            return AggressionMode::Kill;
        }
        return AggressionMode::Survival;
    }
    if my_len > max_enemy_len + 2 && my_voronoi > enemy_voronoi {
        return AggressionMode::Kill;
    }
    if territory_collapsing && my_len >= max_enemy_len {
        return AggressionMode::CutOff;
    }
    if my_len > max_enemy_len && my_voronoi >= enemy_voronoi / 2 {
        return AggressionMode::Pressure;
    }
    if my_len < max_enemy_len {
        return AggressionMode::Survival;
    }
    AggressionMode::Pressure
}

/// `rand::thread_rng().gen_range(0..n)`. rand documents that the value lies in
/// `0..n` and that an empty range panics; which value comes is left to chance.
#[verifier::external_body]
fn random_below(n: usize) -> (r: usize)
    requires
        n > 0,
    ensures
        r < n,
{
    rand::thread_rng().gen_range(0..n)
}

/// A random valid move for snake `snake_idx`, or `Up` when it has none.
pub fn random_move(sim: &SimState, snake_idx: usize) -> (d: Direction)
    requires
        sim.wf(),
        snake_idx < MAX_SNAKES,
    ensures
        (exists|k: int| 0 <= k < 4 && sim.valid_move(snake_idx as int, #[trigger] dir_of_index(k))) ==> sim.valid_move(
            snake_idx as int,
            d,
        ),
        !(exists|k: int| 0 <= k < 4 && sim.valid_move(snake_idx as int, #[trigger] dir_of_index(k))) ==> d
            == Direction::Up,
{
    let valid = sim.get_valid_moves(snake_idx);
    let mut options: Vec<Direction> = Vec::new();
    let mut k: usize = 0;
    while k < 4
        invariant
            sim.wf(),
            snake_idx < MAX_SNAKES,
            k <= 4,
            forall|j: int|
                0 <= j < 4 ==> #[trigger] valid[j] == (if sim.valid_move(snake_idx as int, dir_of_index(j)) {
                    Some(dir_of_index(j))
                } else {
                    None
                }),
            forall|j: int| 0 <= j < options.len() ==> sim.valid_move(snake_idx as int, #[trigger] options@[j]),
            (exists|j: int| 0 <= j < k && sim.valid_move(snake_idx as int, #[trigger] dir_of_index(j))) ==> options.len()
                > 0,
        decreases 4 - k,
    {
        let ghost before = options@;
        match valid[k] {
            Some(d) => {
                options.push(d);
                assert(sim.valid_move(snake_idx as int, dir_of_index(k as int)));
                assert(forall|j: int| 0 <= j < before.len() ==> options@[j] == before[j]);
            },
            None => {},
        }
        k += 1;
    }
    if options.len() == 0 {
        Direction::Up
    } else {
        let i = random_below(options.len());
        assert(sim.valid_move(snake_idx as int, options@[i as int]));
        proof {
            crate::types::lemma_index_round_trip(options@[i as int]);
            assert(sim.valid_move(snake_idx as int, dir_of_index(crate::types::dir_index(options@[i as int]))));
        }
        options[i]
    }
}


/// What a random move may be for snake `i`: one of its valid moves when it has
/// one, `Up` otherwise.
pub open spec fn random_choice(st: SimState, i: int, d: Direction) -> bool {
    if exists|k: int| 0 <= k < 4 && st.valid_move(i, #[trigger] dir_of_index(k)) {
        st.valid_move(i, d)
    } else {
        d == Direction::Up
    }
}

/// The moves of one play-out turn: `first` for my snake when it is given, a
/// random choice for every other live snake in play, no move for the rest.
pub open spec fn playout_moves(st: SimState, moves: [Option<Direction>; MAX_SNAKES], first: Option<Direction>) -> bool {
    forall|i: int|
        0 <= i < MAX_SNAKES ==> if first is Some && i == st.my_idx {
            #[trigger] moves[i] == first
        } else if i < st.num_snakes && st.snakes[i].alive {
            moves[i] is Some && random_choice(st, i, moves[i]->0)
        } else {
            moves[i] is None
        }
}

/// The number of turns a play-out of `max_turns` may last: at least one.
pub open spec fn rollout_turns(max_turns: int) -> int {
    if max_turns < 1 {
        1
    } else {
        max_turns
    }
}

/// `states` and `plays` record a play-out: each state follows from the one before
/// by its turn's moves, the first turn plays `first_move` for me, and before every
/// later turn my snake was alive and at least two snakes were.
pub open spec fn playout(
    states: Seq<SimState>,
    plays: Seq<[Option<Direction>; MAX_SNAKES]>,
    first_move: Direction,
) -> bool {
    &&& states.len() == plays.len() + 1
    &&& forall|t: int|
        0 <= t < plays.len() ==> states[t].successor(#[trigger] plays[t], states[t + 1]) && playout_moves(
            states[t],
            plays[t],
            if t == 0 {
                Some(first_move)
            } else {
                None
            },
        )
    &&& forall|t: int|
        1 <= t < plays.len() ==> #[trigger] states[t].me_alive() && states[t].alive_count(
            states[t].num_snakes as int,
        ) > 1
}

/// The moves of one play-out turn, drawn at random.
fn playout_turn(sim: &SimState, first: Option<Direction>) -> (moves: [Option<Direction>; MAX_SNAKES])
    requires
        sim.wf(),
    ensures
        playout_moves(*sim, moves, first),
{
    let mut moves: [Option<Direction>; MAX_SNAKES] = [None; 8];
    let mut i: usize = 0;
    while i < MAX_SNAKES
        invariant
            sim.wf(),
            i <= MAX_SNAKES,
            forall|j: int|
                0 <= j < i ==> if first is Some && j == sim.my_idx {
                    #[trigger] moves[j] == first
                } else if j < sim.num_snakes && sim.snakes[j].alive {
                    moves[j] is Some && random_choice(*sim, j, moves[j]->0)
                } else {
                    moves[j] is None
                },
            forall|j: int| i <= j < MAX_SNAKES ==> #[trigger] moves[j] is None,
        decreases MAX_SNAKES - i,
    {
        if first.is_some() && i == sim.my_idx as usize {
            moves[i] = first;
        } else if i < sim.num_snakes as usize && sim.snakes[i].alive {
            let d = random_move(sim, i);
            moves[i] = Some(d);
        }
        i += 1;
    }
    moves
}

/// Plays random turns from `state`, my first move being `first_move`, for
/// `max_turns` turns (at least one), or until the game is over; says whether my
/// snake is still alive at the end.
pub fn rollout_survives(state: &SimState, first_move: Direction, max_turns: i32) -> (survived: bool)
    requires
        state.wf(),
        state.calm(rollout_turns(max_turns as int)),
    ensures
        exists|states: Seq<SimState>, plays: Seq<[Option<Direction>; MAX_SNAKES]>|
            #![trigger playout(states, plays, first_move)]
            playout(states, plays, first_move) && states[0] == *state && 1 <= plays.len() <= rollout_turns(
                max_turns as int,
            ) && survived == states.last().me_alive() && (survived ==> plays.len() == rollout_turns(
                max_turns as int,
            ) || states.last().alive_count(states.last().num_snakes as int) <= 1),
{
    let ghost total = rollout_turns(max_turns as int);
    let mut sim = *state;
    let moves = playout_turn(&sim, Some(first_move));
    proof {
        sim.lemma_calm_in_range(moves, total);
    }
    let next = sim.advance(&moves);
    proof {
        sim.lemma_calm_step(moves, next, total);
    }
    let ghost mut states: Seq<SimState> = seq![sim, next];
    let ghost mut plays: Seq<[Option<Direction>; MAX_SNAKES]> = seq![moves];
    sim = next;
    assert(playout(states, plays, first_move));
    if !sim.is_alive(sim.my_idx as usize) {
        return false;
    }
    let mut turn: i32 = 1;
    while turn < max_turns
        invariant
            1 <= turn <= total,
            total == rollout_turns(max_turns as int),
            sim.wf(),
            sim.calm(total - turn),
            playout(states, plays, first_move),
            states[0] == *state,
            plays.len() == turn,
            states.last() == sim,
            sim.me_alive(),
        decreases max_turns - turn,
    {
        if sim.is_game_over() {
            let alive = sim.is_alive(sim.my_idx as usize);
            assert(playout(states, plays, first_move));
            return alive;
        }
        let moves = playout_turn(&sim, None);
        proof {
            sim.lemma_calm_in_range(moves, total - turn);
        }
        let next = sim.advance(&moves);
        proof {
            sim.lemma_calm_step(moves, next, total - turn);
            let old_states = states;
            let old_plays = plays;
            states = states.push(next);
            plays = plays.push(moves);
            assert forall|t: int| 0 <= t < plays.len() implies states[t].successor(#[trigger] plays[t], states[t + 1])
                && playout_moves(
                states[t],
                plays[t],
                if t == 0 {
                    Some(first_move)
                } else {
                    None
                },
            ) by {
                if t < old_plays.len() {
                    assert(old_states[t].successor(old_plays[t], old_states[t + 1]));
                }
            }
            assert forall|t: int| 1 <= t < plays.len() implies #[trigger] states[t].me_alive() && states[t].alive_count(
                states[t].num_snakes as int,
            ) > 1 by {
                if t < old_plays.len() {
                    assert(old_states[t].me_alive());
                }
            }
        }
        sim = next;
        if !sim.is_alive(sim.my_idx as usize) {
            assert(playout(states, plays, first_move));
            return false;
        }
        turn += 1;
    }
    assert(playout(states, plays, first_move));
    true
}

/// The cell one step from my head in direction `k`.
pub open spec fn step_from_head(b: Board, k: int) -> (int, int) {
    (b.my_head.x + dir_dx(dir_of_index(k)), b.my_head.y + dir_dy(dir_of_index(k)))
}

/// The step in direction `k` stays on the board.
pub open spec fn step_on_board(b: Board, k: int) -> bool {
    let p = step_from_head(b, k);
    0 <= p.0 < b.width && 0 <= p.1 < b.height
}

/// The step in direction `k` lands on a cell whose tail moves away.
pub open spec fn step_onto_tail(b: Board, k: int) -> bool {
    let p = step_from_head(b, k);
    step_on_board(b, k) && b.tail_freeing_bb@.contains(cell_index(p.0, p.1, b.width as int))
}

/// The safe moves from my head among the first `k` directions, in order.
pub open spec fn safe_moves_upto(b: Board, k: int) -> Seq<Direction>
    decreases k,
{
    if k <= 0 {
        Seq::empty()
    } else {
        let prev = safe_moves_upto(b, k - 1);
        if b.safe_step(b.my_head.x as int, b.my_head.y as int, k - 1) {
            prev.push(dir_of_index(k - 1))
        } else {
            prev
        }
    }
}

/// The first of the first `k` directions whose step stays on the board, and also
/// lands on a moving tail when `tail` is set.
pub open spec fn first_step(b: Board, k: int, tail: bool) -> Option<int>
    decreases k,
{
    if k <= 0 {
        None
    } else {
        match first_step(b, k - 1, tail) {
            Some(j) => Some(j),
            None => if step_on_board(b, k - 1) && (!tail || step_onto_tail(b, k - 1)) {
                Some(k - 1)
            } else {
                None
            },
        }
    }
}

/// The moves worth weighing from my head: every safe move; when there is none, the
/// one move to try anyway: onto a moving tail if possible, else any move that stays
/// on the board; no move at all when every move leaves the board.
pub open spec fn candidate_moves_spec(b: Board) -> Seq<Direction> {
    let safe = safe_moves_upto(b, 4);
    if safe.len() > 0 {
        safe
    } else {
        match first_step(b, 4, true) {
            Some(j) => seq![dir_of_index(j)],
            None => match first_step(b, 4, false) {
                Some(j) => seq![dir_of_index(j)],
                None => Seq::empty(),
            },
        }
    }
}

/// The step from my head in direction `k` is open: on the board, and either free
/// or the cell of a tail that moves away this turn.
pub open spec fn open_step(b: Board, k: int) -> bool {
    let x = b.my_head.x + dir_dx(dir_of_index(k));
    let y = b.my_head.y + dir_dy(dir_of_index(k));
    let c = y * b.width + x;
    &&& 0 <= x < b.width
    &&& 0 <= y < b.height
    &&& (!b.all_bodies@.contains(c) || b.tail_freeing_bb@.contains(c))
}

/// Directions listed in the order up, down, left, right, each at most once.
pub open spec fn in_direction_order(s: Seq<Direction>) -> bool {
    forall|i: int, j: int| 0 <= i < j < s.len() ==> dir_index(#[trigger] s[i]) < dir_index(#[trigger] s[j])
}

/// The safe moves among the first `n` directions are exactly the open steps, in
/// direction order.
proof fn lemma_safe_moves_upto(b: Board, n: int)
    requires
        0 <= n <= 4,
    ensures
        forall|k: int| 0 <= k < 4 ==> (safe_moves_upto(b, n).contains(#[trigger] dir_of_index(k)) <==> (k < n && open_step(b, k))),
        in_direction_order(safe_moves_upto(b, n)),
        forall|i: int| 0 <= i < safe_moves_upto(b, n).len() ==> dir_index(#[trigger] safe_moves_upto(b, n)[i]) < n,
    decreases n,
{
    if n > 0 {
        lemma_safe_moves_upto(b, n - 1);
        let prev = safe_moves_upto(b, n - 1);
        let d = dir_of_index(n - 1);
        assert(dir_index(d) == n - 1);
        assert(b.safe_step(b.my_head.x as int, b.my_head.y as int, n - 1) == open_step(b, n - 1));
        assert forall|k: int| 0 <= k < 4 implies (safe_moves_upto(b, n).contains(#[trigger] dir_of_index(k)) <==> (k < n
            && open_step(b, k))) by {
            assert(dir_index(dir_of_index(k)) == k);
            if safe_moves_upto(b, n).contains(dir_of_index(k)) && !prev.contains(dir_of_index(k)) {
                assert(dir_of_index(k) == d);
            }
            if k == n - 1 && open_step(b, k) {
                assert(safe_moves_upto(b, n)[prev.len() as int] == d);
            }
            if k < n - 1 && prev.contains(dir_of_index(k)) {
                let i = choose|i: int| 0 <= i < prev.len() && prev[i] == dir_of_index(k);
                assert(safe_moves_upto(b, n)[i] == dir_of_index(k));
            }
            if k == n - 1 && prev.contains(dir_of_index(k)) {
                let i = choose|i: int| 0 <= i < prev.len() && prev[i] == dir_of_index(k);
                assert(dir_index(prev[i]) < n - 1);
            }
        }
    }
}

/// When some move is open, the candidates are exactly the open moves, in direction
/// order; a step onto a tail that moves away is among them. When none is, there is
/// at most one candidate, and it stays on the board.
pub proof fn lemma_candidates_are_open_moves(b: Board)
    ensures
        (exists|k: int| 0 <= k < 4 && #[trigger] open_step(b, k)) ==> forall|k: int|
            0 <= k < 4 ==> (candidate_moves_spec(b).contains(#[trigger] dir_of_index(k)) <==> open_step(b, k)),
        in_direction_order(candidate_moves_spec(b)),
        !(exists|k: int| 0 <= k < 4 && #[trigger] open_step(b, k)) ==> candidate_moves_spec(b).len() <= 1,
{
    lemma_safe_moves_upto(b, 4);
    let safe = safe_moves_upto(b, 4);
    if exists|k: int| 0 <= k < 4 && #[trigger] open_step(b, k) {
        let k = choose|k: int| 0 <= k < 4 && #[trigger] open_step(b, k);
        assert(safe.contains(dir_of_index(k)));
    } else {
        if safe.len() > 0 {
            let d = safe[0];
            crate::types::lemma_index_round_trip(d);
            assert(safe.contains(dir_of_index(dir_index(d))));
        }
    }
}

/// The candidate moves from my head.
pub fn candidate_moves(board: &Board) -> (r: Vec<Direction>)
    requires
        board.wf(),
    ensures
        r@ == candidate_moves_spec(*board),
        (exists|k: int| 0 <= k < 4 && #[trigger] open_step(*board, k)) ==> forall|k: int|
            0 <= k < 4 ==> (r@.contains(#[trigger] dir_of_index(k)) <==> open_step(*board, k)),
        in_direction_order(r@),
        !(exists|k: int| 0 <= k < 4 && #[trigger] open_step(*board, k)) ==> r.len() <= 1,
{
    proof {
        lemma_candidates_are_open_moves(*board);
    }
    let hx = board.my_head.x;
    let hy = board.my_head.y;
    proof {
        lemma_cell_in_word(hx as int, hy as int, board.width as int, board.height as int);
    }
    let mut safe: Vec<Direction> = Vec::new();
    let mut k: usize = 0;
    while k < 4
        invariant
            board.wf(),
            hx == board.my_head.x,
            hy == board.my_head.y,
            0 <= hx < 128,
            0 <= hy < 128,
            k <= 4,
            safe@ == safe_moves_upto(*board, k as int),
        decreases 4 - k,
    {
        let dir = Direction::from_index(k);
        let nx = hx + dir.dx();
        let ny = hy + dir.dy();
        if board.is_in_bounds(nx, ny) && board.is_safe(nx, ny) {
            safe.push(dir);
        }
        k += 1;
    }
    if safe.len() > 0 {
        return safe;
    }
    let mut fallback: Option<usize> = None;
    let mut any: Option<usize> = None;
    let mut k: usize = 0;
    while k < 4
        invariant
            board.wf(),
            hx == board.my_head.x,
            hy == board.my_head.y,
            0 <= hx < 128,
            0 <= hy < 128,
            k <= 4,
            fallback matches Some(j) ==> first_step(*board, k as int, true) == Some(j as int),
            fallback is None ==> first_step(*board, k as int, true) is None,
            any matches Some(j) ==> first_step(*board, k as int, false) == Some(j as int),
            any is None ==> first_step(*board, k as int, false) is None,
            fallback matches Some(j) ==> j < 4,
            any matches Some(j) ==> j < 4,
        decreases 4 - k,
    {
        let dir = Direction::from_index(k);
        let nx = hx + dir.dx();
        let ny = hy + dir.dy();
        if board.is_in_bounds(nx, ny) {
            proof {
                lemma_cell_in_word(nx as int, ny as int, board.width as int, board.height as int);
            }
            if any.is_none() {
                any = Some(k);
            }
            if fallback.is_none() && board.is_tail_freeing(nx, ny) {
                fallback = Some(k);
            }
        }
        k += 1;
    }
    let mut r: Vec<Direction> = Vec::new();
    match fallback {
        Some(j) => {
            r.push(Direction::from_index(j));
        },
        None => match any {
            Some(j) => {
                r.push(Direction::from_index(j));
            },
            None => {},
        },
    }
    assert(r@ =~= candidate_moves_spec(*board));
    r
}

/// A play-out whose first move takes my snake off the board ends with my snake
/// dead.
pub proof fn lemma_playout_off_board(
    states: Seq<SimState>,
    plays: Seq<[Option<Direction>; MAX_SNAKES]>,
    first_move: Direction,
)
    requires
        playout(states, plays, first_move),
        plays.len() >= 1,
        states[0].wf(),
        states[0].me_alive(),
        states[0].goes_out(plays[0], states[0].my_idx as int),
    ensures
        !states.last().me_alive(),
{
    let s0 = states[0];
    let me = s0.my_idx as int;
    assert(s0.successor(plays[0], states[1]));
    assert(s0.dies_alone(plays[0], me));
    s0.lemma_solo_death(plays[0], states[1], me);
    assert(!states[1].me_alive());
    if plays.len() > 1 {
        assert(states[1].me_alive());
    }
}

} // verus!
