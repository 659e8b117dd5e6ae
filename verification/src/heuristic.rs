//! The integer measures behind position evaluation: the open area around a cell,
//! territory won by racing to cells, and the escape routes around a head.
use vstd::prelude::*;
use crate::bitboard::{Bitboard, reachable, cell_index};
use crate::bits::{bit, bits, lemma_bit_and, lemma_bit_not, lemma_bit_or, lemma_test_single};
use crate::simulator::{SimState, MAX_SNAKES, lemma_cell_in_word};
use crate::types::{Direction, dir_dx, dir_dy, dir_of_index};

verus! {

/// The cells of the board that a snake may move through this turn: free cells and
/// cells whose tail moves away.
pub open spec fn passable(state: SimState) -> Set<int> {
    state.masks.cells().difference(bits(state.all_bodies).difference(state.moving_tails()))
}

/// The number of cells reachable from cell `start_pos` through passable cells
/// (none when `start_pos` itself is not passable).
pub fn flood_fill_area(state: &SimState, start_pos: u8) -> (n: i32)
    requires
        state.wf(),
        state.width < 128,
        start_pos < 128,
    ensures
        n == reachable(
            Set::<int>::empty().insert(start_pos as int),
            passable(*state),
            state.width as int,
            state.height as int,
        ).len(),
{
    let moving_tails = state.moving_tails_bb();
    let blocked = Bitboard(state.all_bodies & !moving_tails);
    proof {
        lemma_bit_not(moving_tails);
        lemma_bit_and(state.all_bodies, !moving_tails);
        assert(blocked@ =~= bits(state.all_bodies).difference(state.moving_tails()));
    }
    let start = Bitboard::from_idx(start_pos as u32);
    let area = start.flood_fill(blocked, &state.masks);
    area.popcount() as i32
}

} // verus!

verus! {

/// The sum of `f(k)` over `0 <= k < n`.
pub open spec fn sum_upto(n: int, f: spec_fn(int) -> int) -> int
    decreases n,
{
    if n <= 0 {
        0
    } else {
        sum_upto(n - 1, f) + f(n - 1)
    }
}

impl SimState {
    /// The safe neighbours of `(x, y)` other than cell `except`.
    pub open spec fn exits_except(&self, x: int, y: int, except: int) -> nat {
        crate::board::count_where(
            4,
            |k: int|
                self.open_at(x, y, k) && cell_index(
                    x + dir_dx(dir_of_index(k)),
                    y + dir_dy(dir_of_index(k)),
                    self.width as int,
                ) != except,
        )
    }

    /// Over the safe neighbours of `(x, y)`, the number of their own safe
    /// neighbours other than `(x, y)`: the room to move two steps ahead.
    pub open spec fn exits_two_ahead(&self, x: int, y: int) -> int {
        sum_upto(
            4,
            |k: int|
                if self.open_at(x, y, k) {
                    self.exits_except(
                        x + dir_dx(dir_of_index(k)),
                        y + dir_dy(dir_of_index(k)),
                        cell_index(x, y, self.width as int),
                    ) as int
                } else {
                    0
                },
        )
    }
}

/// A cell of a `w` x `h` board splits into its column and row.
pub proof fn lemma_cell_split(p: int, w: int, h: int)
    requires
        0 <= p < w * h,
        1 <= w,
    ensures
        0 <= p % w < w,
        0 <= p / w < h,
        p == cell_index(p % w, p / w, w),
{
    vstd::arithmetic::div_mod::lemma_fundamental_div_mod(p, w);
    vstd::arithmetic::mul::lemma_mul_is_commutative(w, p / w);
    assert(p / w < h) by (nonlinear_arith)
        requires
            0 <= p < w * h,
            1 <= w,
            p == w * (p / w) + p % w,
            0 <= p % w,
    ;
    assert(0 <= p / w) by (nonlinear_arith)
        requires
            0 <= p,
            1 <= w,
    ;
}

/// The room to move two steps ahead of the head of snake `idx`.
pub fn exit_count(state: &SimState, idx: usize) -> (n: i32)
    requires
        state.wf(),
        idx < MAX_SNAKES,
        state.snakes[idx as int].alive,
    ensures
        n == state.exits_two_ahead(state.head_x(idx as int), state.head_y(idx as int)),
        0 <= n <= 16,
{
    let s = &state.snakes[idx];
    let head = s.head();
    let hx = (head % state.width) as i32;
    let hy = (head / state.width) as i32;
    let w = state.width as i32;
    let h = state.height as i32;
    let moving_tails = state.moving_tails_bb();
    let safe = !state.all_bodies | moving_tails;
    proof {
        lemma_bit_not(state.all_bodies);
        lemma_bit_or(!state.all_bodies, moving_tails);
        lemma_cell_split(head as int, state.width as int, state.height as int);
    }
    let mut total: i32 = 0;
    let mut k: usize = 0;
    while k < 4
        invariant
            state.wf(),
            w == state.width,
            h == state.height,
            0 <= hx < w,
            0 <= hy < h,
            head == cell_index(hx as int, hy as int, w as int),
            forall|p: int| #[trigger] bit(safe, p) == (0 <= p < 128 && state.safe_cell(p)),
            k <= 4,
            0 <= total <= 4 * k,
            total == sum_upto(
                k as int,
                |j: int|
                    if state.open_at(hx as int, hy as int, j) {
                        state.exits_except(
                            hx + dir_dx(dir_of_index(j)),
                            hy + dir_dy(dir_of_index(j)),
                            cell_index(hx as int, hy as int, state.width as int),
                        ) as int
                    } else {
                        0
                    },
            ),
        decreases 4 - k,
    {
        let dir = Direction::from_index(k);
        let nx = hx + dir.dx();
        let ny = hy + dir.dy();
        if nx >= 0 && nx < w && ny >= 0 && ny < h {
            proof {
                lemma_cell_in_word(nx as int, ny as int, w as int, h as int);
            }
            let npos = (ny as u8) * state.width + (nx as u8);
            proof {
                lemma_test_single(safe, npos as u128);
            }
            if (safe & (1u128 << npos)) != 0 {
                let mut exits: i32 = 0;
                let mut k2: usize = 0;
                while k2 < 4
                    invariant
                        state.wf(),
                        w == state.width,
                        h == state.height,
                        0 <= nx < w,
                        0 <= ny < h,
                        forall|p: int| #[trigger] bit(safe, p) == (0 <= p < 128 && state.safe_cell(p)),
                        k2 <= 4,
                        0 <= exits <= k2,
                        exits == crate::board::count_where(
                            k2 as int,
                            |j: int|
                                state.open_at(nx as int, ny as int, j) && cell_index(
                                    nx + dir_dx(dir_of_index(j)),
                                    ny + dir_dy(dir_of_index(j)),
                                    state.width as int,
                                ) != head as int,
                        ),
                    decreases 4 - k2,
                {
                    let d2 = Direction::from_index(k2);
                    let nnx = nx + d2.dx();
                    let nny = ny + d2.dy();
                    if nnx >= 0 && nnx < w && nny >= 0 && nny < h {
                        proof {
                            lemma_cell_in_word(nnx as int, nny as int, w as int, h as int);
                        }
                        let nnpos = (nny as u8) * state.width + (nnx as u8);
                        proof {
                            lemma_test_single(safe, nnpos as u128);
                        }
                        if nnpos != head && (safe & (1u128 << nnpos)) != 0 {
                            exits += 1;
                        }
                    }
                    k2 += 1;
                }
                total += exits;
            }
        }
        k += 1;
    }
    total
}

/// The stance the evaluation takes towards the enemies.
#[derive(Debug, PartialEq, Eq, Clone, Copy, Structural)]
pub enum EvalMode {
    Survival,
    Pressure,
    Kill,
}

/// The stance for my health and length, the enemies' number and greatest length,
/// and the territories.
pub open spec fn eval_mode_spec(
    health: int,
    my_len: int,
    max_enemy_len: int,
    num_enemies: int,
    my_territory: int,
    enemy_territory: int,
) -> EvalMode {
    let advantage = my_territory - enemy_territory;
    if health < 25 {
        EvalMode::Survival
    } else if num_enemies >= 3 {
        if my_len > max_enemy_len + 4 && advantage > 15 {
            EvalMode::Pressure
        } else {
            EvalMode::Survival
        }
    } else if my_len > max_enemy_len + 2 && advantage > 5 {
        EvalMode::Kill
    } else if my_len > max_enemy_len {
        EvalMode::Pressure
    } else if advantage < -10 {
        EvalMode::Survival
    } else {
        EvalMode::Pressure
    }
}

/// The rules of the evaluation's stance: below 25 health it is survival; among three
/// or more enemies it is pressure exactly when I am more than four longer than the
/// longest enemy and hold more than 15 cells more territory, and survival otherwise.
pub proof fn lemma_eval_mode_rules(
    health: int,
    my_len: int,
    max_enemy_len: int,
    num_enemies: int,
    my_territory: int,
    enemy_territory: int,
)
    ensures
        ({
            let m = eval_mode_spec(health, my_len, max_enemy_len, num_enemies, my_territory, enemy_territory);
            &&& health < 25 ==> m == EvalMode::Survival
            &&& health >= 25 && num_enemies >= 3 ==> (m == EvalMode::Pressure <==> (my_len > max_enemy_len + 4
                && my_territory - enemy_territory > 15))
            &&& health >= 25 && num_enemies >= 3 ==> (m == EvalMode::Pressure || m == EvalMode::Survival)
            &&& m == EvalMode::Kill <==> (health >= 25 && num_enemies < 3 && my_len > max_enemy_len + 2
                && my_territory - enemy_territory > 5)
            &&& health >= 25 && num_enemies < 3 && my_len > max_enemy_len && m != EvalMode::Kill ==> m
                == EvalMode::Pressure
            &&& health >= 25 && num_enemies < 3 && my_len <= max_enemy_len ==> (m == EvalMode::Survival
                <==> my_territory - enemy_territory < -10)
        }),
{
}

/// Chooses the evaluation's stance. Territories are cell counts.
pub fn eval_mode(
    health: i16,
    my_len: u8,
    max_enemy_len: u8,
    num_enemies: usize,
    my_territory: i32,
    enemy_territory: i32,
) -> (m: EvalMode)
    requires
        health >= 25 && num_enemies < 3 ==> max_enemy_len <= 253,
        0 <= my_territory <= 0x80_0000,
        0 <= enemy_territory <= 0x80_0000,
    ensures
        m == eval_mode_spec(
            health as int,
            my_len as int,
            max_enemy_len as int,
            num_enemies as int,
            my_territory as int,
            enemy_territory as int,
        ),
        health < 25 ==> m == EvalMode::Survival,
        health >= 25 && num_enemies >= 3 ==> (m == EvalMode::Pressure <==> (my_len > max_enemy_len + 4
            && my_territory - enemy_territory > 15)),
        health >= 25 && num_enemies >= 3 ==> (m == EvalMode::Pressure || m == EvalMode::Survival),
{
    proof {
        lemma_eval_mode_rules(
            health as int,
            my_len as int,
            max_enemy_len as int,
            num_enemies as int,
            my_territory as int,
            enemy_territory as int,
        );
    }
    let advantage = my_territory - enemy_territory;
    if health < 25 {
        EvalMode::Survival
    } else if num_enemies >= 3 {
        if (my_len as i32) > max_enemy_len as i32 + 4 && advantage > 15 {
            EvalMode::Pressure
        } else {
            EvalMode::Survival
        }
    } else if my_len > max_enemy_len + 2 && advantage > 5 {
        EvalMode::Kill
    } else if my_len > max_enemy_len {
        EvalMode::Pressure
    } else if advantage < -10 {
        EvalMode::Survival
    } else {
        EvalMode::Pressure
    }
}

} // verus!
